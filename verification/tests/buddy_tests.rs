use veloq::buddy::{BuddyAllocator, BuddyPool, ARENA_SIZE, NUM_ORDERS};
use veloq::buffer::BufferSize;

#[test]
fn test_alloc_basic() {
    let mut allocator = BuddyAllocator::new();
    assert_eq!(allocator.count_free(NUM_ORDERS - 1), 1);

    let (offset1, order1) = allocator.allocate(4096).unwrap();
    assert_eq!(order1, 0);

    assert_eq!(allocator.count_free(0), 1);
    assert_eq!(allocator.count_free(1), 1);
    assert_eq!(allocator.count_free(NUM_ORDERS - 1), 0);

    allocator.dealloc(offset1, order1);

    assert_eq!(allocator.count_free(NUM_ORDERS - 1), 1);
    assert_eq!(allocator.count_free(0), 0);
}

#[test]
fn test_pool_integration() {
    let mut pool = BuddyPool::new();
    let buf = pool.allocate(4096).unwrap();
    assert_eq!(buf.capacity(), 4096);
    pool.release(buf);
}

#[test]
fn order_of_request_sizes() {
    assert_eq!(BuddyAllocator::calculate_order(0), Some(0));
    assert_eq!(BuddyAllocator::calculate_order(1), Some(0));
    assert_eq!(BuddyAllocator::calculate_order(4096), Some(0));
    assert_eq!(BuddyAllocator::calculate_order(4097), Some(1));
    assert_eq!(BuddyAllocator::calculate_order(8192), Some(1));
    assert_eq!(BuddyAllocator::calculate_order(5000), Some(1));
    assert_eq!(BuddyAllocator::calculate_order(65536), Some(4));
    assert_eq!(BuddyAllocator::calculate_order(ARENA_SIZE), Some(13));
    assert_eq!(BuddyAllocator::calculate_order(ARENA_SIZE + 1), None);
}

#[test]
fn blocks_split_from_the_low_end_and_merge_back() {
    let mut a = BuddyAllocator::new();
    let (o1, k1) = a.allocate(4096).unwrap();
    let (o2, k2) = a.allocate(4096).unwrap();
    let (o3, k3) = a.allocate(8192).unwrap();
    assert_eq!((o1, k1), (0, 0));
    assert_eq!((o2, k2), (4096, 0));
    assert_eq!((o3, k3), (8192, 1));
    for k in 0..2 {
        assert_eq!(a.count_free(k), 0);
    }
    for k in 2..NUM_ORDERS - 1 {
        assert_eq!(a.count_free(k), 1);
    }
    a.dealloc(o2, k2);
    assert_eq!(a.count_free(0), 1);
    a.dealloc(o1, k1);
    assert_eq!(a.count_free(0), 0);
    assert_eq!(a.count_free(1), 1);
    a.dealloc(o3, k3);
    assert_eq!(a.count_free(NUM_ORDERS - 1), 1);
    for k in 0..NUM_ORDERS - 1 {
        assert_eq!(a.count_free(k), 0);
    }
}

#[test]
fn whole_arena_and_then_nothing() {
    let mut a = BuddyAllocator::new();
    let (o, k) = a.allocate(ARENA_SIZE).unwrap();
    assert_eq!((o, k), (0, NUM_ORDERS - 1));
    assert!(a.allocate(1).is_none());
    assert!(a.allocate(ARENA_SIZE + 1).is_none());
    a.dealloc(o, k);
    assert!(a.allocate(1).is_some());
}

#[test]
fn pool_buffers_have_the_requested_length() {
    let mut pool = BuddyPool::new();
    let buf = pool.allocate(5000).unwrap();
    assert_eq!(buf.capacity(), 8192);
    assert_eq!(buf.len(), 5000);
    assert_eq!(buf.offset(), 0);
    let mut buf2 = pool.allocate(100).unwrap();
    assert_eq!(buf2.capacity(), 4096);
    assert_eq!(buf2.offset(), 8192);
    buf2.set_len(10);
    assert_eq!(buf2.len(), 10);
    assert_eq!(pool.region_len(), ARENA_SIZE);
    pool.release(buf2);
    pool.release(buf);
}

#[test]
fn buffer_sizes() {
    assert_eq!(BufferSize::Size4K.size(), 4096);
    assert_eq!(BufferSize::Size16K.size(), 16384);
    assert_eq!(BufferSize::Size64K.size(), 65536);
    assert_eq!(BufferSize::Custom(123).size(), 123);
}

#[test]
fn granted_buffers_are_the_smallest_aligned_disjoint_blocks() {
    let mut pool = BuddyPool::new();
    assert!(pool.allocate(ARENA_SIZE + 1).is_none());
    let a = pool.allocate(5000).unwrap();
    assert_eq!(a.capacity(), 8192);
    assert_eq!(a.len(), 5000);
    assert_eq!(a.offset() % a.capacity(), 0);
    let b = pool.allocate(100).unwrap();
    assert_eq!(b.capacity(), 4096);
    assert_eq!(b.offset() % 4096, 0);
    assert!(a.offset() + a.capacity() <= b.offset() || b.offset() + b.capacity() <= a.offset());
    assert!(a.offset() + a.capacity() <= ARENA_SIZE && b.offset() + b.capacity() <= ARENA_SIZE);
}

#[test]
fn fresh_pool_grants_the_whole_arena() {
    let mut pool = BuddyPool::new();
    let whole = pool.allocate(ARENA_SIZE).unwrap();
    assert_eq!(whole.offset(), 0);
    assert_eq!(whole.capacity(), ARENA_SIZE);
    assert!(pool.allocate(1).is_none());
}
