use clarity_wasm::allocator::{WasmAllocator2, WrappedPtr};

#[test]
fn test_alloc_with_size_power_of_two() {
    WasmAllocator2::new(512);
}

#[test]
fn test_simple_allocations_round_up_to_next_block_size() {
    let alloc = WasmAllocator2::new(256);

    assert_eq!(Some(8), alloc.allocation_size(0));
    assert_eq!(Some(8), alloc.allocation_size(1));
    assert_eq!(Some(16), alloc.allocation_size(16));
    assert_eq!(Some(32), alloc.allocation_size(17));
    assert_eq!(Some(32), alloc.allocation_size(32));
    assert_eq!(Some(64), alloc.allocation_size(33));
    assert_eq!(Some(256), alloc.allocation_size(256));
}

#[test]
fn test_block_orders() {
    let alloc = WasmAllocator2::new(256);

    assert_eq!(Some(0), alloc.allocation_order(0));
    assert_eq!(Some(0), alloc.allocation_order(1));
    assert_eq!(Some(1), alloc.allocation_order(16));
    assert_eq!(Some(2), alloc.allocation_order(32));
    assert_eq!(Some(3), alloc.allocation_order(64));
    assert_eq!(Some(4), alloc.allocation_order(128));
    assert_eq!(Some(5), alloc.allocation_order(256));
    assert_eq!(None, alloc.allocation_order(512));
}

#[test]
fn test_order_size() {
    let alloc = WasmAllocator2::new(256);

    assert_eq!(8, alloc.order_size(0));
    assert_eq!(16, alloc.order_size(1));
    assert_eq!(32, alloc.order_size(2));
    assert_eq!(64, alloc.order_size(3));
    assert_eq!(128, alloc.order_size(4));
    assert_eq!(256, alloc.order_size(5));
}

#[test]
fn test_free_list_remove() {
    let mut alloc = WasmAllocator2::new(256);

    let block1 = WrappedPtr::new(1, 1, 1);
    let block2 = WrappedPtr::new(2, 2, 1);
    let block3 = WrappedPtr::new(3, 3, 1);

    alloc.free_list_push(3, block1);
    alloc.free_list_push(3, block2);
    alloc.free_list_push(3, block3);

    assert_eq!(true, alloc.free_list_remove(3, block2.id));
}

#[test]
fn test_split_free_block() {
    let mut alloc = WasmAllocator2::new(256);
    let mut block = WrappedPtr::new(0, 0, 256);

    alloc.split_free_block(&mut block, 5, 1);
}

#[test]
fn allocations_split_blocks_and_freeing_merges_them_back() {
    let mut alloc = WasmAllocator2::new(256);

    let a = alloc.allocate(16);
    let b = alloc.allocate(16);
    assert_eq!(0, a.ptr.offset);
    assert_eq!(16, b.ptr.offset);
    assert_eq!(16, a.size);
    assert_eq!(16, a.ptr.len);
    assert_ne!(a.id, b.id);

    let c = alloc.allocate(128);
    assert_eq!(128, c.size);
    assert_eq!(128, c.ptr.offset);

    alloc.deallocate(a);
    alloc.deallocate(b);
    alloc.deallocate(c);

    // Every block merged back: the whole memory can be handed out again.
    let whole = alloc.allocate(256);
    assert_eq!(0, whole.ptr.offset);
    assert_eq!(256, whole.size);
}

#[test]
fn a_buddy_is_found_at_the_flipped_offset() {
    let mut alloc = WasmAllocator2::new(256);
    let p1 = alloc.allocate(8);
    let p2 = alloc.allocate(8);
    let p3 = alloc.allocate(8);
    assert_eq!(16, p3.ptr.offset);

    let buddy = alloc.find_buddy(0, p3).unwrap();
    assert_eq!(24, buddy.ptr.offset);

    alloc.deallocate(p3);
    alloc.deallocate(p2);
    alloc.deallocate(p1);
    let whole = alloc.allocate(256);
    assert_eq!(0, whole.ptr.offset);
    assert_eq!(256, whole.ptr.len);
}

#[test]
fn allocated_blocks_are_aligned_inside_memory_and_apart() {
    let mut alloc = WasmAllocator2::new(1024);
    let sizes = [3u32, 100, 8, 17, 64, 200, 5];
    let mut live: Vec<WrappedPtr> = Vec::new();
    for (n, size) in sizes.iter().enumerate() {
        let p = alloc.allocate(*size);
        assert_eq!(*size, p.ptr.len);
        assert_eq!(0, p.ptr.offset % p.size);
        assert!(p.ptr.offset + p.size <= 1024);
        for q in &live {
            assert!(p.ptr.offset + p.size <= q.ptr.offset || q.ptr.offset + q.size <= p.ptr.offset);
        }
        live.push(p);
        if n == 3 {
            let freed = live.remove(1);
            alloc.deallocate(freed);
        }
    }
}

#[test]
fn bump_ranges_follow_each_other() {
    let mut a = clarity_wasm::allocator::WasmAllocator::new();
    let mut b = a;
    assert_eq!(clarity_wasm::ptr::Ptr::new(0, 16), a.alloc_for_buffer(&[0u8; 16]));
    assert_eq!(clarity_wasm::ptr::Ptr::new(0, 16), b.alloc_for_size(16));
    assert_eq!(a.next_offset, b.next_offset);
    assert_eq!(clarity_wasm::ptr::Ptr::new(16, 3), a.alloc_for_buffer(&[1, 2, 3]));
    assert_eq!(19, a.next_offset);
}
