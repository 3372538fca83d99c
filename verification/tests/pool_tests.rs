use deadlock_guard::pool::Pool;

#[test]
fn new_pool_is_unlocked_with_equal_balances() {
    let pool = Pool::new(4, 250);
    assert_eq!(pool.resource_count(), 4);
    for i in 0..4 {
        assert_eq!(pool.resources[i].id, i);
        assert_eq!(pool.balance_of(i), 250);
        assert!(pool.is_free(i));
    }
}

#[test]
fn a_lock_is_exclusive_until_released() {
    let mut pool = Pool::new(2, 100);
    assert!(pool.try_acquire(0, 1));
    assert_eq!(pool.resources[0].owner, Some(1));
    // a second worker is turned away without blocking
    assert!(!pool.try_acquire(0, 2));
    assert_eq!(pool.resources[0].owner, Some(1));
    // an unrelated resource is unaffected
    assert!(pool.try_acquire(1, 2));
    pool.release(0);
    assert!(pool.is_free(0));
    assert!(pool.try_acquire(0, 2));
}

#[test]
fn locking_never_touches_balances() {
    let mut pool = Pool::new(2, 77);
    assert!(pool.try_acquire(0, 1));
    pool.release(0);
    assert_eq!(pool.balance_of(0), 77);
    assert_eq!(pool.balance_of(1), 77);
}
