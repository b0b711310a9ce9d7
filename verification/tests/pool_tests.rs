use shingleprint::pool::BufferPool;
use shingleprint::tunables::BUFFER_CAP;

#[test]
fn pool_counter_tracks_live_buffers() {
    let mut pool = BufferPool::new(4 * BUFFER_CAP);
    assert_eq!(pool.mem_used(), 0);
    let a = pool.acquire().unwrap();
    let b = pool.acquire().unwrap();
    assert_eq!(pool.mem_used(), 2 * BUFFER_CAP);
    pool.release(a);
    // the released buffer is parked for recycling: still committed
    assert_eq!(pool.mem_used(), 2 * BUFFER_CAP);
    assert!(pool.has_recyclable());
    pool.release(b);
    pool.drain();
    assert_eq!(pool.mem_used(), 0);
}

#[test]
fn pool_stabilizes_under_pressure() {
    // sustained acquire/release churn above the target must not grow the
    // counter once recycling begins
    let target = 2 * BUFFER_CAP;
    let mut pool = BufferPool::new(target);
    let mut held = Vec::new();
    for _ in 0..3 {
        held.push(pool.acquire().unwrap());
    }
    assert!(pool.over_target());
    let high_water = pool.mem_used();
    for _ in 0..50 {
        let h = held.pop().unwrap();
        pool.release(h);
        assert!(pool.has_recyclable());
        held.push(pool.acquire().unwrap());
        assert_eq!(pool.mem_used(), high_water);
    }
    while let Some(h) = held.pop() {
        pool.release(h);
    }
    pool.drain();
    assert_eq!(pool.mem_used(), 0);
}

#[test]
fn pool_shared_buffer_released_once() {
    let mut pool = BufferPool::new(BUFFER_CAP);
    let h = pool.acquire().unwrap();
    // two stages hold the buffer at once
    pool.retain(h);
    pool.release(h);
    // one holder remains: not recyclable yet
    assert!(!pool.has_recyclable());
    assert_eq!(pool.mem_used(), BUFFER_CAP);
    pool.release(h);
    assert!(pool.has_recyclable());
    pool.drain();
    assert_eq!(pool.mem_used(), 0);
}

#[test]
fn pool_recycled_buffer_comes_back_empty() {
    let mut pool = BufferPool::new(4 * BUFFER_CAP);
    let h = pool.acquire().unwrap();
    pool.store(h, vec![7u8; 100]);
    assert_eq!(pool.buffer(h).len(), 100);
    pool.release(h);
    let g = pool.acquire().unwrap();
    assert!(pool.buffer(g).is_empty());
    assert_eq!(pool.mem_used(), BUFFER_CAP);
}
