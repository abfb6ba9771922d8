use buddy_alloc::{AllocError, BuddyAllocator};

const H: usize = 16;

#[test]
fn create_1024() {
    let a = BuddyAllocator::new(1024);
    assert_eq!(a.size, 1024);
    assert_eq!(a.min_size, 64);
    assert_eq!(a.max_order, 4);
    assert!(a.data[0].free);
    assert!(!a.data[0].split);
    assert!(a.data[0].initialized);
    assert_eq!(a.num_free_at_order, vec![0, 0, 0, 0, 1]);
    assert_eq!(a.data.len(), 31);
    assert_eq!(a.memory.len(), 1024);
    // the root's header: marked free, order 4
    assert_eq!(a.memory[0], 1);
    assert_eq!(a.memory[1], 4);
}

#[test]
fn create_rounds_up_to_power_of_two() {
    assert_eq!(BuddyAllocator::new(0).size, 64);
    assert_eq!(BuddyAllocator::new(1).size, 64);
    assert_eq!(BuddyAllocator::new(64).size, 64);
    assert_eq!(BuddyAllocator::new(65).size, 128);
    assert_eq!(BuddyAllocator::new(1000).size, 1024);
    assert_eq!(BuddyAllocator::new(1025).size, 2048);
}

#[test]
fn order_arithmetic() {
    let a = BuddyAllocator::new(1024);
    // root
    assert_eq!(a.index_to_order(0), 4);
    assert_eq!(a.order_to_size(4), 1024);
    assert_eq!(a.index_to_size(0), 1024);
    assert_eq!(a.index_to_address(0), 0);
    // one node per level down the leftmost path
    assert_eq!(a.index_to_order(1), 3);
    assert_eq!(a.index_to_order(3), 2);
    assert_eq!(a.index_to_order(7), 1);
    assert_eq!(a.index_to_order(15), 0);
    assert_eq!(a.index_to_size(3), 256);
    // offsets within a level step by the block size
    assert_eq!(a.index_to_address(7), 0);
    assert_eq!(a.index_to_address(8), 128);
    assert_eq!(a.index_to_address(15), 0);
    assert_eq!(a.index_to_address(16), 64);
    assert_eq!(a.index_to_address(30), 960);
}

#[test]
fn level_tiles_arena() {
    // size_of(order_of(i)) * nodes_at_that_level == arena size, at every node
    let a = BuddyAllocator::new(1024);
    let mut nodes_at_level = [0usize; 5];
    for i in 0..a.data.len() {
        let order = a.index_to_order(i);
        nodes_at_level[a.max_order - order] += 1;
    }
    for i in 0..a.data.len() {
        let order = a.index_to_order(i);
        let level = a.max_order - order;
        assert_eq!(a.order_to_size(order) * nodes_at_level[level], a.size);
    }
}

#[test]
fn eight_small_allocations_then_exhausted() {
    // 64 + 16 bytes of header need a 128-byte block: eight of them fill 1024
    let mut a = BuddyAllocator::new(1024);
    let mut ptrs = Vec::new();
    for _ in 0..8 {
        let p = a.malloc(64, None).unwrap();
        ptrs.push(p);
    }
    assert_eq!(ptrs[0], H);
    assert_eq!(ptrs[1], 128 + H);
    assert_eq!(ptrs[2], 256 + H);
    assert_eq!(ptrs[3], 384 + H);
    // all eight blocks are 128 bytes and pairwise disjoint
    for i in 0..8 {
        for j in 0..8 {
            if i != j {
                let (si, sj) = (ptrs[i] - H, ptrs[j] - H);
                assert!(si + 128 <= sj || sj + 128 <= si);
            }
        }
    }
    assert_eq!(a.malloc(64, None), Err(AllocError::OutOfMemory));
}

#[test]
fn no_overlap_mixed_sizes() {
    let mut a = BuddyAllocator::new(1024);
    let p1 = a.malloc(200, None).unwrap(); // 256-byte block
    let p2 = a.malloc(100, None).unwrap(); // 128-byte block
    let p3 = a.malloc(400, None).unwrap(); // 512-byte block
    let blocks = [(p1 - H, 256), (p2 - H, 128), (p3 - H, 512)];
    for i in 0..3 {
        for j in 0..3 {
            if i != j {
                let (si, ni) = blocks[i];
                let (sj, nj) = blocks[j];
                assert!(si + ni <= sj || sj + nj <= si);
            }
        }
    }
}

#[test]
fn fit_guarantee() {
    // the chosen block is the smallest power-of-two multiple of 64 that
    // holds the request plus its header, and starts on its own size
    let mut a = BuddyAllocator::new(1024);
    let p = a.malloc(100, None).unwrap();
    assert_eq!((p - H) % 128, 0);
    assert_eq!(a.index_to_size(a.address_to_index(p).unwrap()), 128);
    let q = a.malloc(10, Some(256)).unwrap();
    let qi = a.address_to_index(q).unwrap();
    assert_eq!(a.index_to_size(qi), 512);
    assert_eq!((q - H) % 512, 0);
}

#[test]
fn alignment_picks_larger_of_size_and_alignment() {
    let mut a = BuddyAllocator::new(1024);
    // alignment smaller than size: the size decides
    let p = a.malloc(200, Some(64)).unwrap();
    assert_eq!(a.index_to_size(a.address_to_index(p).unwrap()), 256);
}

#[test]
fn arena_too_small_is_immediate_and_pure() {
    let mut a = BuddyAllocator::new(1024);
    let before_data = a.data.clone();
    let before_counters = a.num_free_at_order.clone();
    // 1009 + 16 > 1024 can never fit
    assert_eq!(a.malloc(1009, None), Err(AllocError::ArenaTooSmall));
    assert_eq!(a.malloc(2000, None), Err(AllocError::ArenaTooSmall));
    assert_eq!(a.malloc(0, Some(2000)), Err(AllocError::ArenaTooSmall));
    assert_eq!(a.data, before_data);
    assert_eq!(a.num_free_at_order, before_counters);
    // 1008 + 16 == 1024 still fits in the whole arena
    let p = a.malloc(1008, None).unwrap();
    assert_eq!(p, H);
}

#[test]
fn out_of_memory_leaves_state_unchanged() {
    let mut a = BuddyAllocator::new(1024);
    let _ = a.malloc(400, None).unwrap(); // 512-byte block
    let _ = a.malloc(100, None).unwrap(); // 128-byte block
    let before_data = a.data.clone();
    let before_counters = a.num_free_at_order.clone();
    // 384 free bytes remain in aggregate, but no single 512-byte block
    assert_eq!(a.malloc(300, None), Err(AllocError::OutOfMemory));
    assert_eq!(a.data, before_data);
    assert_eq!(a.num_free_at_order, before_counters);
}

#[test]
fn round_trip_restores_tree_exactly() {
    let mut a = BuddyAllocator::new(1024);
    let p0 = a.malloc(100, None).unwrap();
    // snapshot a non-fresh state
    let data0 = a.data.clone();
    let counters0 = a.num_free_at_order.clone();
    let p = a.malloc(300, None).unwrap();
    assert!(p != p0);
    a.free(p).unwrap();
    assert_eq!(a.data, data0);
    assert_eq!(a.num_free_at_order, counters0);
}

#[test]
fn round_trip_from_fresh() {
    let mut a = BuddyAllocator::new(1024);
    let data0 = a.data.clone();
    let counters0 = a.num_free_at_order.clone();
    let p = a.malloc(64, None).unwrap();
    a.free(p).unwrap();
    assert_eq!(a.data, data0);
    assert_eq!(a.num_free_at_order, counters0);
}

#[test]
fn buddies_coalesce_into_parent() {
    let mut a = BuddyAllocator::new(1024);
    let p1 = a.malloc(64, None).unwrap(); // node 7, bytes 0..128
    let p2 = a.malloc(64, None).unwrap(); // node 8, bytes 128..256
    let p3 = a.malloc(64, None).unwrap(); // node 9, keeps the cascade local
    assert_eq!((p1, p2, p3), (H, 128 + H, 256 + H));
    a.free(p1).unwrap();
    // only one half freed: no merge yet
    assert!(a.data[7].free);
    a.free(p2).unwrap();
    // both buddies gone: their parent is free, both children are reset
    assert!(a.data[3].free && !a.data[3].split);
    assert!(!a.data[7].free && !a.data[7].split && !a.data[7].initialized);
    assert!(!a.data[8].free && !a.data[8].split && !a.data[8].initialized);
    assert_eq!(a.num_free_at_order, vec![0, 1, 1, 1, 0]);
}

#[test]
fn freeing_everything_restores_fresh_state() {
    let mut a = BuddyAllocator::new(1024);
    let mut ptrs = Vec::new();
    for _ in 0..8 {
        ptrs.push(a.malloc(64, None).unwrap());
    }
    // free in an interleaved order
    for &i in &[1usize, 0, 3, 5, 7, 2, 6, 4] {
        a.free(ptrs[i]).unwrap();
    }
    assert_eq!(a.num_free_at_order, vec![0, 0, 0, 0, 1]);
    assert!(a.data[0].free && !a.data[0].split && a.data[0].initialized);
    for i in 1..a.data.len() {
        assert!(!a.data[i].free && !a.data[i].split && !a.data[i].initialized);
    }
}

#[test]
fn invalid_pointers_are_rejected() {
    let mut a = BuddyAllocator::new(1024);
    // not obtained from malloc: before any allocation even the base is free
    assert_eq!(a.free(3), Err(AllocError::InvalidPointer));
    assert_eq!(a.free(0), Err(AllocError::InvalidPointer));
    assert_eq!(a.free(H), Err(AllocError::InvalidPointer));
    let p = a.malloc(64, None).unwrap();
    // misaligned: points into the middle of the block
    assert_eq!(a.free(p + 3), Err(AllocError::InvalidPointer));
    // out of range
    assert_eq!(a.free(5000), Err(AllocError::InvalidPointer));
    // the real pointer still frees fine afterwards
    a.free(p).unwrap();
}

#[test]
fn double_free_is_rejected() {
    let mut a = BuddyAllocator::new(1024);
    let p = a.malloc(64, None).unwrap();
    let q = a.malloc(64, None).unwrap();
    a.free(p).unwrap();
    assert_eq!(a.free(p), Err(AllocError::InvalidPointer));
    a.free(q).unwrap();
    assert_eq!(a.free(q), Err(AllocError::InvalidPointer));
}

#[test]
fn address_to_index_inverts_allocation() {
    let mut a = BuddyAllocator::new(1024);
    let p = a.malloc(100, None).unwrap();
    let i = a.address_to_index(p).unwrap();
    assert_eq!(a.index_to_address(i) + H, p);
    assert_eq!(a.index_to_order(i), 1);
    // a pointer nobody allocated does not resolve
    assert_eq!(a.address_to_index(512 + H), Err(AllocError::InvalidPointer));
}

#[test]
fn headers_track_allocation_state() {
    let mut a = BuddyAllocator::new(1024);
    let p = a.malloc(64, None).unwrap();
    let start = p - H;
    assert_eq!(a.memory[start], 0); // marked allocated
    assert_eq!(a.memory[start + 1], 1); // order 1
    a.free(p).unwrap();
    assert_eq!(a.memory[start], 1); // marked free again
}

#[test]
fn stress_interleaved_allocations_never_overlap() {
    let mut a = BuddyAllocator::new(2048);
    let mut live: Vec<(usize, usize)> = Vec::new(); // (pointer, block size)
    let sizes = [64usize, 100, 30, 200, 400, 48, 120, 250];
    for round in 0..50 {
        match a.malloc(sizes[round % sizes.len()], None) {
            Ok(p) => {
                let i = a.address_to_index(p).unwrap();
                let n = a.index_to_size(i);
                for &(q, m) in &live {
                    assert!(p - H + n <= q - H || q - H + m <= p - H);
                }
                live.push((p, n));
            }
            Err(e) => {
                assert_eq!(e, AllocError::OutOfMemory);
                // free the older half and try again next round
                let k = (live.len() + 1) / 2;
                for (q, _) in live.drain(..k) {
                    a.free(q).unwrap();
                }
            }
        }
    }
    for (q, _) in live.drain(..) {
        a.free(q).unwrap();
    }
    assert_eq!(a.num_free_at_order, vec![0, 0, 0, 0, 0, 1]);
    assert!(a.data[0].free);
}

#[test]
fn smallest_arena_single_block() {
    let mut a = BuddyAllocator::new(64);
    assert_eq!(a.max_order, 0);
    let p = a.malloc(48, None).unwrap();
    assert_eq!(p, H);
    assert_eq!(a.malloc(1, None), Err(AllocError::OutOfMemory));
    a.free(p).unwrap();
    assert_eq!(a.num_free_at_order, vec![1]);
}
