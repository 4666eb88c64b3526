use irmin::hdiffpatch::buffer_pool::{shrinks, BufferPool};

#[test]
fn take_returns_exact_capacity_match() {
    let mut pool = BufferPool::new(2);
    pool.return_buf(Vec::with_capacity(1024));
    let buf = pool.take(512);
    assert!(buf.capacity() >= 1024);
}

#[test]
fn take_allocates_when_pool_empty() {
    let mut pool = BufferPool::new(2);
    let buf = pool.take(256);
    assert!(buf.capacity() >= 256);
}

#[test]
fn return_buf_caps_at_max_idle() {
    let mut pool = BufferPool::new(1);
    pool.return_buf(Vec::with_capacity(64));
    pool.return_buf(Vec::with_capacity(128));
    let buf = pool.take(1);
    assert!(buf.capacity() >= 64);
}

#[test]
fn return_buf_shrunken_does_not_grow() {
    let mut pool = BufferPool::new(1);
    let big = vec![0u8; 1024 * 1024];
    let original_cap = big.capacity();
    pool.return_buf_shrunken(big, 256 * 1024);
    let buf = pool.take(1);
    assert!(buf.capacity() <= original_cap);
}

#[test]
fn return_buf_shrunken_keeps_small_buffers() {
    let mut pool = BufferPool::new(1);
    let small = vec![0u8; 100];
    pool.return_buf_shrunken(small, 256 * 1024);
    let buf = pool.take(1);
    assert!(buf.capacity() >= 100 && buf.capacity() <= 256 * 1024);
}

#[test]
fn only_large_buffers_give_memory_back() {
    assert!(shrinks(257, 256));
    assert!(!shrinks(256, 256));
    assert!(!shrinks(0, 0));

    let mut pool = BufferPool::new(1);
    assert_eq!(pool.keep_within(vec![1, 2, 3], 300, 256), Some(vec![1, 2, 3]));
    assert!(pool.buffers.is_empty());
    assert_eq!(pool.keep_within(vec![1, 2, 3], 256, 256), None);
    assert_eq!(pool.buffers.len(), 1);
    assert_eq!(pool.buffers[0].capacity, 256);
    // A full pool takes no more, and gives nothing back to be shrunk.
    assert_eq!(pool.keep_within(vec![4], 300, 256), None);
    assert_eq!(pool.buffers.len(), 1);
    assert_eq!(pool.take(1), vec![1, 2, 3]);
}
