//! Idle upstream connections.

use lb::proxy_monoio::pool::{ConnectionPool, MAX_IDLE_AGE_NANOS, MAX_IDLE_PER_HOST};

#[test]
fn take_returns_none_for_an_unknown_host() {
    let mut pool: ConnectionPool<u32> = ConnectionPool::new();
    assert!(pool.take("10.0.0.1:80", 0).is_none());
    assert_eq!(pool.idle_count(), 0);
}

#[test]
fn put_then_take_reuses_the_connection() {
    let mut pool = ConnectionPool::new();
    pool.put("backend:80", 7u32, 0);
    assert_eq!(pool.idle_count(), 1);
    assert_eq!(pool.take("backend:80", 0), Some(7));
    assert_eq!(pool.idle_count(), 0, "taking must remove it from the pool");
}

#[test]
fn connections_are_keyed_by_address() {
    let mut pool = ConnectionPool::new();
    pool.put("a:80", 7u32, 0);
    assert!(
        pool.take("b:80", 0).is_none(),
        "must not hand out another host's connection"
    );
    assert!(pool.take("a:80", 0).is_some());
}

#[test]
fn pool_is_bounded_per_host() {
    let mut pool = ConnectionPool::new();
    for i in 0..MAX_IDLE_PER_HOST + 8 {
        pool.put("backend:80", i, 0);
    }
    assert_eq!(pool.idle_count(), MAX_IDLE_PER_HOST);
}

#[test]
fn evict_expired_drops_nothing_while_fresh() {
    let mut pool = ConnectionPool::new();
    pool.put("backend:80", 7u32, 0);
    pool.evict_expired(0);
    assert_eq!(pool.idle_count(), 1);
}

#[test]
fn the_freshest_connection_comes_first() {
    let mut pool = ConnectionPool::new();
    pool.put("backend:80", 1u32, 0);
    pool.put("backend:80", 2u32, 1);
    assert_eq!(pool.take("backend:80", 2), Some(2));
    assert_eq!(pool.take("backend:80", 2), Some(1));
    assert_eq!(pool.take("backend:80", 2), None);
}

#[test]
fn stale_connections_are_not_handed_out() {
    let mut pool = ConnectionPool::new();
    pool.put("backend:80", 1u32, 0);
    pool.put("other:80", 2u32, MAX_IDLE_AGE_NANOS);
    assert_eq!(pool.take("backend:80", MAX_IDLE_AGE_NANOS * 2), None);
    pool.evict_expired(MAX_IDLE_AGE_NANOS * 3);
    assert_eq!(pool.idle_count(), 0);
}
