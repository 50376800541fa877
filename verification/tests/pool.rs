use iobeam::buffer_pool::{BufferPool, BUFFER_POOL_ITEM_SIZE};

#[test]
fn new_buffers_are_zeroed_and_sized() {
    let mut pool = BufferPool::new(4);
    let i = pool.reuse_or_allocate();
    assert_eq!(pool.get(i).len(), BUFFER_POOL_ITEM_SIZE);
    assert!(pool.get(i).iter().all(|b| *b == 0));
    let j = pool.reuse_or_allocate();
    assert_ne!(i, j);
}

#[test]
fn returned_buffer_is_handed_out_next() {
    let mut pool = BufferPool::new(4);
    let a = pool.reuse_or_allocate();
    let b = pool.reuse_or_allocate();
    pool.return_to_pool(a);
    pool.return_to_pool(b);
    assert_eq!(pool.reuse_or_allocate(), b);
    assert_eq!(pool.reuse_or_allocate(), a);
    let c = pool.reuse_or_allocate();
    assert!(c != a && c != b);
}

#[test]
fn writes_are_kept() {
    let mut pool = BufferPool::new(1);
    let a = pool.reuse_or_allocate();
    pool.get_mut(a)[..3].copy_from_slice(b"abc");
    assert_eq!(&pool.get(a)[..4], b"abc\0");
    assert_eq!(&pool.get_unchecked(a)[..3], b"abc");
    pool.return_to_pool(a);
    let again = pool.reuse_or_allocate();
    assert_eq!(again, a);
    assert_eq!(&pool.get(again)[..3], b"abc");
}

#[test]
fn allocated_range_is_handed_out_last_first() {
    let mut pool = BufferPool::new(4);
    pool.allocate_range(3);
    let a = pool.reuse_or_allocate();
    let b = pool.reuse_or_allocate();
    let c = pool.reuse_or_allocate();
    assert_eq!((a, b, c), (2, 1, 0));
    assert!(pool.get(a).iter().all(|x| *x == 0));
    assert_eq!(pool.get(c).len(), BUFFER_POOL_ITEM_SIZE);
    assert_eq!(pool.reuse_or_allocate(), 3);
}
