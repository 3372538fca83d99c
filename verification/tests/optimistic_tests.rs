use deadlock_guard::TransferError;
use deadlock_guard::detector::DeadlockDetector;
use deadlock_guard::optimistic::try_transfer;
use deadlock_guard::pool::Pool;
use deadlock_guard::recovery::recover;
use deadlock_guard::recovery::retry_backoff;

fn sum_of(pool: &Pool) -> u128 {
    pool.resources.iter().map(|r| r.balance as u128).sum()
}

#[test]
fn uncontended_attempt_commits_and_clears_state() {
    let mut pool = Pool::new(2, 1000);
    let mut reg = DeadlockDetector::new();
    let r = try_transfer(&mut pool, &mut reg, 1, 0, 1, 300);
    assert_eq!(r, Ok(()));
    assert_eq!(pool.resources[0].balance, 700);
    assert_eq!(pool.resources[1].balance, 1300);
    assert_eq!(sum_of(&pool), 2000);
    assert!(pool.is_free(0));
    assert!(pool.is_free(1));
    assert_eq!(reg.entries.len(), 1);
    assert_eq!(reg.entries[0].worker_id, 1);
    assert!(reg.entries[0].held.is_empty());
    assert!(reg.entries[0].wanted.is_empty());
}

#[test]
fn insufficient_funds_still_clears_state() {
    let mut pool = Pool::new(2, 100);
    let mut reg = DeadlockDetector::new();
    let r = try_transfer(&mut pool, &mut reg, 1, 0, 1, 101);
    assert_eq!(r, Err(TransferError::InsufficientFunds));
    assert_eq!(sum_of(&pool), 200);
    assert!(pool.is_free(0));
    assert!(pool.is_free(1));
    assert!(reg.entries[0].held.is_empty());
    assert!(reg.entries[0].wanted.is_empty());
}

#[test]
fn busy_source_publishes_the_want_only() {
    let mut pool = Pool::new(2, 1000);
    let mut reg = DeadlockDetector::new();
    assert!(pool.try_acquire(0, 99));
    let r = try_transfer(&mut pool, &mut reg, 1, 0, 1, 10);
    assert_eq!(r, Err(TransferError::Busy));
    assert_eq!(reg.entries[0].worker_id, 1);
    assert!(reg.entries[0].held.is_empty());
    assert_eq!(reg.entries[0].wanted, vec![0]);
    // the untouched resource stayed free; nothing was transferred
    assert!(pool.is_free(1));
    assert_eq!(sum_of(&pool), 2000);
}

#[test]
fn busy_destination_publishes_hold_and_want_then_releases() {
    let mut pool = Pool::new(2, 1000);
    let mut reg = DeadlockDetector::new();
    assert!(pool.try_acquire(1, 99));
    let r = try_transfer(&mut pool, &mut reg, 1, 0, 1, 10);
    assert_eq!(r, Err(TransferError::Busy));
    // published before releasing: the entry names the hold it had
    assert_eq!(reg.entries[0].held, vec![0]);
    assert_eq!(reg.entries[0].wanted, vec![1]);
    // but the lock itself was given back: no other worker is blocked by it
    assert!(pool.is_free(0));
    assert_eq!(pool.resources[1].owner, Some(99));
    assert_eq!(sum_of(&pool), 2000);
}

#[test]
fn crossed_attempts_are_detected_and_recovered() {
    // Worker 5 holds resource 1 mid-attempt and wants 0; worker 1's attempt
    // fails against it and publishes the crossed state. The detector must
    // report exactly the two of them, and recovery must free every hold and
    // clear both entries without touching balances.
    let mut pool = Pool::new(2, 1000);
    let mut reg = DeadlockDetector::new();
    assert!(pool.try_acquire(1, 5));
    reg.update_state(5, vec![1], vec![0]);
    let r = try_transfer(&mut pool, &mut reg, 1, 0, 1, 10);
    assert_eq!(r, Err(TransferError::Busy));
    let mut cycle = reg.detect_deadlock().expect("crossed waits form a cycle");
    cycle.sort();
    assert_eq!(cycle, vec![1, 5]);

    recover(&mut pool, &mut reg, &cycle);
    assert!(pool.is_free(0));
    assert!(pool.is_free(1));
    assert_eq!(sum_of(&pool), 2000);
    for e in reg.entries.iter() {
        assert!(e.held.is_empty());
        assert!(e.wanted.is_empty());
    }
    assert_eq!(reg.detect_deadlock(), None);
}

#[test]
fn recovery_leaves_bystanders_alone() {
    let mut pool = Pool::new(3, 100);
    let mut reg = DeadlockDetector::new();
    assert!(pool.try_acquire(0, 1));
    assert!(pool.try_acquire(1, 2));
    assert!(pool.try_acquire(2, 7)); // innocent bystander
    reg.update_state(1, vec![0], vec![1]);
    reg.update_state(2, vec![1], vec![0]);
    reg.update_state(7, vec![2], vec![]);
    let mut cycle = reg.detect_deadlock().expect("cycle of 1 and 2");
    cycle.sort();
    assert_eq!(cycle, vec![1, 2]);
    recover(&mut pool, &mut reg, &cycle);
    assert!(pool.is_free(0));
    assert!(pool.is_free(1));
    assert_eq!(pool.resources[2].owner, Some(7));
    assert_eq!(reg.entries.iter().find(|e| e.worker_id == 7).unwrap().held, vec![2]);
}

#[test]
fn backoff_grows_with_attempts_and_saturates() {
    assert_eq!(retry_backoff(10, 0, 3), 13);
    assert_eq!(retry_backoff(10, 2, 5), 35);
    assert_eq!(retry_backoff(u64::MAX, 1, 0), u64::MAX);
    assert_eq!(retry_backoff(u64::MAX, 0, 1), u64::MAX);
    assert_eq!(retry_backoff(0, 7, 9), 9);
}
