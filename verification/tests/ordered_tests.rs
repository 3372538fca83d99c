use deadlock_guard::TransferError;
use deadlock_guard::order_pair;
use deadlock_guard::ordered::transfer;
use deadlock_guard::ordered::transfer_with_retry;
use deadlock_guard::pool::Pool;

fn sum_of(pool: &Pool) -> u128 {
    pool.resources.iter().map(|r| r.balance as u128).sum()
}

#[test]
fn order_pair_is_direction_independent() {
    assert_eq!(order_pair(2, 5), (2, 5));
    assert_eq!(order_pair(5, 2), (2, 5));
}

#[test]
fn successful_transfer_moves_the_amount() {
    let mut pool = Pool::new(2, 1000);
    let r = transfer(&mut pool, 0, 0, 1, 250, 3);
    assert_eq!(r, Ok(()));
    assert_eq!(pool.resources[0].balance, 750);
    assert_eq!(pool.resources[1].balance, 1250);
    assert_eq!(sum_of(&pool), 2000);
    assert!(pool.is_free(0));
    assert!(pool.is_free(1));
}

#[test]
fn direction_is_logical_not_lock_order() {
    // The lock order picks resource 0 first, but the money must still move
    // from resource 1 (the logical source) to resource 0.
    let mut pool = Pool::new(2, 1000);
    let r = transfer(&mut pool, 0, 1, 0, 400, 3);
    assert_eq!(r, Ok(()));
    assert_eq!(pool.resources[0].balance, 1400);
    assert_eq!(pool.resources[1].balance, 600);
}

#[test]
fn insufficient_funds_changes_nothing() {
    let mut pool = Pool::new(2, 1000);
    let r = transfer(&mut pool, 0, 0, 1, 1001, 3);
    assert_eq!(r, Err(TransferError::InsufficientFunds));
    assert_eq!(pool.resources[0].balance, 1000);
    assert_eq!(pool.resources[1].balance, 1000);
    assert!(pool.is_free(0));
    assert!(pool.is_free(1));
}

#[test]
fn contended_lock_times_out_and_releases_everything() {
    let mut pool = Pool::new(2, 1000);
    // another worker holds the second resource for the whole attempt
    assert!(pool.try_acquire(1, 99));
    let r = transfer(&mut pool, 0, 0, 1, 100, 3);
    assert_eq!(r, Err(TransferError::LockTimeout));
    // the failed worker left no lock behind: the first resource is free
    // again and the contending worker still holds its own lock
    assert!(pool.is_free(0));
    assert!(!pool.is_free(1));
    assert_eq!(pool.resources[1].owner, Some(99));
    assert_eq!(pool.resources[0].balance, 1000);
    assert_eq!(pool.resources[1].balance, 1000);
}

#[test]
fn zero_budget_times_out() {
    let mut pool = Pool::new(2, 1000);
    let r = transfer(&mut pool, 0, 0, 1, 100, 0);
    assert_eq!(r, Err(TransferError::LockTimeout));
}

#[test]
fn retry_reports_terminal_timeout() {
    let mut pool = Pool::new(2, 1000);
    assert!(pool.try_acquire(0, 99));
    let r = transfer_with_retry(&mut pool, 1, 0, 1, 100, 2, 3);
    assert_eq!(r, Err(TransferError::LockTimeout));
    assert_eq!(pool.resources[0].owner, Some(99));
    assert!(pool.is_free(1));
}

#[test]
fn retry_does_not_mask_insufficient_funds() {
    let mut pool = Pool::new(2, 100);
    let r = transfer_with_retry(&mut pool, 1, 0, 1, 500, 2, 3);
    assert_eq!(r, Err(TransferError::InsufficientFunds));
    assert_eq!(sum_of(&pool), 200);
}

#[test]
fn retry_succeeds_when_uncontended() {
    let mut pool = Pool::new(2, 1000);
    let r = transfer_with_retry(&mut pool, 1, 1, 0, 75, 2, 3);
    assert_eq!(r, Ok(()));
    assert_eq!(pool.resources[0].balance, 1075);
    assert_eq!(pool.resources[1].balance, 925);
}

#[test]
fn ten_workers_alternating_directions_conserve_the_total() {
    // Two resources starting at 1000 each, ten workers alternating direction;
    // every transfer completes and the final sum is exactly 2000.
    let mut pool = Pool::new(2, 1000);
    for worker in 0..10usize {
        let (from, to) = if worker % 2 == 0 { (0, 1) } else { (1, 0) };
        let r = transfer_with_retry(&mut pool, worker, from, to, 50, 5, 3);
        assert_eq!(r, Ok(()));
        assert_eq!(sum_of(&pool), 2000);
    }
    assert_eq!(pool.resources[0].balance, 1000);
    assert_eq!(pool.resources[1].balance, 1000);
    assert_eq!(sum_of(&pool), 2000);
    assert!(pool.is_free(0));
    assert!(pool.is_free(1));
}

#[test]
fn mixed_transfers_conserve_the_total() {
    let mut pool = Pool::new(5, 500);
    let moves = [(0usize, 1usize, 120u64), (2, 3, 499), (4, 0, 17), (1, 4, 300), (3, 2, 86)];
    for (i, &(from, to, amount)) in moves.iter().enumerate() {
        let r = transfer(&mut pool, i, from, to, amount, 2);
        assert_eq!(r, Ok(()));
        assert_eq!(sum_of(&pool), 2500);
    }
}
