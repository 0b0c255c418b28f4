use ternary_memory_pool::{TernaryAllocator, TRITS_PER_WORD};

#[test]
fn ternary_alloc_basic() {
    let mut ta = TernaryAllocator::new(160);
    let h = ta.allocate(32).unwrap();
    let (start, len) = ta.get(h).unwrap();
    assert_eq!(start % TRITS_PER_WORD, 0);
    assert_eq!(len, 32);
}

#[test]
fn ternary_alloc_aligns_up() {
    let mut ta = TernaryAllocator::new(160);
    let h = ta.allocate(17).unwrap(); // rounds up to 32
    let (_, len) = ta.get(h).unwrap();
    assert_eq!(len, 32);
}

#[test]
fn ternary_alloc_exhaustion() {
    let mut ta = TernaryAllocator::new(32);
    let _h1 = ta.allocate(32).unwrap();
    assert!(ta.allocate(1).is_none());
}

#[test]
fn ternary_dealloc_and_reuse() {
    let mut ta = TernaryAllocator::new(64);
    let h1 = ta.allocate(32).unwrap();
    let _h2 = ta.allocate(32).unwrap();
    assert!(ta.deallocate(h1));
    let h3 = ta.allocate(16).unwrap();
    assert!(ta.get(h3).unwrap().0 < 32); // reused the first region
    assert_eq!(ta.used_trits(), 48); // 32 + 16
}

#[test]
fn ternary_dealloc_invalid() {
    let mut ta = TernaryAllocator::new(64);
    assert!(!ta.deallocate(999));
}

#[test]
fn ternary_coalesce_adjacent() {
    let mut ta = TernaryAllocator::new(64);
    let h1 = ta.allocate(16).unwrap();
    let h2 = ta.allocate(16).unwrap();
    let _h3 = ta.allocate(16).unwrap();

    ta.deallocate(h1);
    ta.deallocate(h2);
    // The two 16-trit regions should join into one 32-trit region
    let _h4 = ta.allocate(32).unwrap(); // needs the joined region
    assert_eq!(ta.used_trits(), 48); // h3(16) + h4(32)
}

#[test]
fn ternary_total_rounds_up() {
    let ta = TernaryAllocator::new(20);
    assert_eq!(ta.total_trits(), 32); // rounded up to word boundary
}

#[test]
fn ternary_free_trits() {
    let mut ta = TernaryAllocator::new(64);
    ta.allocate(16);
    assert_eq!(ta.free_trits(), 48);
}

#[test]
fn ternary_stress() {
    let mut ta = TernaryAllocator::new(1024);
    let mut handles: Vec<u64> = Vec::new();
    for _ in 0..64 {
        if let Some(h) = ta.allocate(16) {
            handles.push(h);
        }
    }
    assert_eq!(handles.len(), 64); // 1024 / 16 = 64
    assert!(ta.allocate(16).is_none());

    // Free all and verify we can re-allocate
    for h in handles {
        ta.deallocate(h);
    }
    assert_eq!(ta.used_trits(), 0);
    let _h = ta.allocate(1024).unwrap();
}

#[test]
fn ternary_quick_start() {
    assert_eq!(TRITS_PER_WORD, 16);
    let mut ta = TernaryAllocator::new(1024);
    let h1 = ta.allocate(32).unwrap();
    let h2 = ta.allocate(17).unwrap();
    assert_eq!(ta.get(h1), Some((0, 32)));
    assert_eq!(ta.get(h2), Some((32, 32)));
    assert!(ta.deallocate(h1));
    assert_eq!(ta.get(h1), None);
    assert_eq!(ta.live_allocations(), 1);
}

#[test]
fn ternary_rounding() {
    for (trits, length) in [(0, 16), (1, 16), (16, 16), (17, 32), (32, 32), (256, 256), (1024, 1024)] {
        let mut ta = TernaryAllocator::new(1024);
        let h = ta.allocate(trits).unwrap();
        assert_eq!(ta.get(h), Some((0, length)));
    }
}

#[test]
fn ternary_no_capacity() {
    let mut ta = TernaryAllocator::new(0);
    assert_eq!(ta.total_trits(), 0);
    assert_eq!(ta.allocate(0), None);
    assert_eq!(ta.free_trits(), 0);
    assert!(!ta.deallocate(0));
}

#[test]
fn ternary_capacity_up_to_the_last_word() {
    let ta = TernaryAllocator::new(usize::MAX - 15);
    assert_eq!(ta.total_trits(), usize::MAX - 15);
}

#[test]
fn ternary_first_fit_searches_in_list_order() {
    let mut ta = TernaryAllocator::new(160);
    let a = ta.allocate(16).unwrap(); // 0
    let _b = ta.allocate(16).unwrap(); // 16
    let c = ta.allocate(32).unwrap(); // 32
    let _d = ta.allocate(16).unwrap(); // 64
    assert!(ta.deallocate(c));
    assert!(ta.deallocate(a));
    // free: 0..16, 32..64, 80..160
    let e = ta.allocate(32).unwrap();
    assert_eq!(ta.get(e), Some((32, 32)));
    let f = ta.allocate(16).unwrap();
    assert_eq!(ta.get(f), Some((0, 16)));
}

#[test]
fn ternary_exact_fit_moves_the_last_region_up() {
    let mut ta = TernaryAllocator::new(128);
    let a = ta.allocate(16).unwrap(); // 0
    let _b = ta.allocate(16).unwrap(); // 16
    let c = ta.allocate(16).unwrap(); // 32
    let _d = ta.allocate(16).unwrap(); // 48
    ta.deallocate(a);
    ta.deallocate(c);
    // free: 0..16, 32..48, 64..128; taking the first puts 64..128 in its place
    let e = ta.allocate(16).unwrap();
    assert_eq!(ta.get(e), Some((0, 16)));
    let f = ta.allocate(16).unwrap();
    assert_eq!(ta.get(f), Some((64, 16)));
}

#[test]
fn ternary_joins_in_any_order() {
    let mut ta = TernaryAllocator::new(96);
    let handles: Vec<u64> = (0..6).map(|_| ta.allocate(16).unwrap()).collect();
    for i in [4, 1, 3, 0, 5, 2] {
        assert!(ta.deallocate(handles[i]));
    }
    assert_eq!(ta.free_trits(), 96);
    let h = ta.allocate(96).unwrap();
    assert_eq!(ta.get(h), Some((0, 96)));
}

#[test]
fn ternary_free_undoes_allocate() {
    let mut ta = TernaryAllocator::new(64);
    ta.allocate(16);
    let h = ta.allocate(20).unwrap();
    assert_eq!(ta.get(h), Some((16, 32)));
    assert!(ta.deallocate(h));
    assert_eq!(ta.free_trits(), 48);
    let again = ta.allocate(48).unwrap();
    assert_eq!(ta.get(again), Some((16, 48)));
}

#[test]
fn ternary_handles_not_reused() {
    let mut ta = TernaryAllocator::new(16);
    for expected in 0..5 {
        let h = ta.allocate(1).unwrap();
        assert_eq!(h, expected);
        assert!(ta.deallocate(h));
        assert!(!ta.deallocate(h));
    }
}

#[test]
fn ternary_live_regions_do_not_overlap() {
    let mut ta = TernaryAllocator::new(512);
    let mut live: Vec<u64> = Vec::new();
    for trits in [5, 40, 16, 100, 33, 64] {
        live.push(ta.allocate(trits).unwrap());
    }
    ta.deallocate(live.remove(1));
    live.push(ta.allocate(20).unwrap());
    for (i, a) in live.iter().enumerate() {
        let (start, len) = ta.get(*a).unwrap();
        assert_eq!(start % 16, 0);
        assert_eq!(len % 16, 0);
        assert!(start + len <= 512);
        for b in &live[i + 1..] {
            let (other, size) = ta.get(*b).unwrap();
            assert!(start + len <= other || other + size <= start);
        }
    }
    assert_eq!(ta.used_trits() + ta.free_trits(), ta.total_trits());
}

#[test]
fn ternary_operations_keep_other_regions() {
    let mut ta = TernaryAllocator::new(96);
    let a = ta.allocate(16).unwrap();
    let b = ta.allocate(32).unwrap();
    let c = ta.allocate(16).unwrap();
    assert!(ta.deallocate(b));
    assert_eq!(ta.get(a), Some((0, 16)));
    assert_eq!(ta.get(c), Some((48, 16)));
    assert_eq!(ta.live_allocations(), 2);
    assert_eq!(ta.used_trits(), 32);
}

#[test]
fn ternary_served_iff_a_range_is_clear() {
    let mut ta = TernaryAllocator::new(96);
    let handles: Vec<u64> = (0..6).map(|_| ta.allocate(16).unwrap()).collect();
    // 16..32 and 48..80 are clear
    for i in [1, 4, 3] {
        assert!(ta.deallocate(handles[i]));
    }
    assert_eq!(ta.allocate(48), None);
    let h = ta.allocate(32).unwrap();
    assert_eq!(ta.get(h), Some((48, 32)));
}
