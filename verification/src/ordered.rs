//! The lock-ordered transfer protocol.
//!
//! Both resources are always acquired in the global total order on resource
//! ids, regardless of the logical transfer direction, so no two concurrent
//! attempts ever take the same pair of locks in opposite order and the
//! wait-for graph this protocol induces is acyclic. While holding the first
//! lock the protocol only ever *tries* the second; on failure it releases the
//! first before retrying, so it never holds one lock while waiting on the
//! other. A worker publishing under this protocol therefore only ever waits
//! for a resource ordered after everything it holds — the
//! [`crate::detector::ordered_discipline`] that
//! [`crate::detector::lemma_ordered_no_cycle`] shows to be deadlock-free.

use vstd::prelude::*;
use crate::TransferError;
use crate::order_pair;
use crate::pool::Pool;
use crate::pool::same_balances;
use crate::pool::same_owners;
use crate::pool::same_shape;

verus! {

/// One bounded transfer attempt from `from` to `to` under the lock-ordered
/// protocol. `budget` bounds the acquisition retries and stands for the
/// caller's lock-acquisition timeout; a real scheduler sleeps between
/// retries. Every exit path has released every lock the attempt took: after
/// a failure no resource is left held by the worker, and the sum of all
/// balances is unchanged by every outcome.
pub fn transfer(
    pool: &mut Pool,
    worker: usize,
    from: usize,
    to: usize,
    amount: u64,
    budget: u64,
) -> (r: Result<(), TransferError>)
    requires
        old(pool).wf(),
        from < old(pool).n(),
        to < old(pool).n(),
        from != to,
        old(pool).holds_nothing(worker),
    ensures
        final(pool).wf(),
        same_shape(*old(pool), *final(pool)),
        final(pool).sum() == old(pool).sum(),
        final(pool).holds_nothing(worker),
        same_owners(*old(pool), *final(pool)),
        (r == Ok::<(), TransferError>(())) == (budget > 0 && old(pool).res(from as int).owner
            is None && old(pool).res(to as int).owner is None && old(pool).res(
            from as int,
        ).balance >= amount),
        (r == Err::<(), TransferError>(TransferError::InsufficientFunds)) == (budget > 0 && old(
            pool,
        ).res(from as int).owner is None && old(pool).res(to as int).owner is None && old(
            pool,
        ).res(from as int).balance < amount),
        (r == Err::<(), TransferError>(TransferError::LockTimeout)) == (budget == 0 || old(
            pool,
        ).res(from as int).owner is Some || old(pool).res(to as int).owner is Some),
        r is Ok ==> final(pool).res(from as int).balance == old(pool).res(from as int).balance
            - amount && final(pool).res(to as int).balance == old(pool).res(to as int).balance
            + amount && (forall|i: int|
            0 <= i < old(pool).n() && i != from && i != to
                ==> (#[trigger] final(pool).resources@[i]).balance
                == old(pool).resources@[i].balance),
        r is Err ==> same_balances(*old(pool), *final(pool)),
{
    let (first, second) = order_pair(from, to);
    let mut tries: u64 = 0;
    while tries < budget
        invariant
            pool.wf(),
            from < pool.n(),
            to < pool.n(),
            from != to,
            first < second,
            (first == from && second == to) || (first == to && second == from),
            pool.n() == old(pool).n(),
            pool.sum() == old(pool).sum(),
            forall|i: int| 0 <= i < pool.n() ==> pool.resources@[i] == old(pool).resources@[i],
            old(pool).holds_nothing(worker),
            tries <= budget,
            tries > 0 ==> !(old(pool).res(from as int).owner is None && old(pool).res(
                to as int,
            ).owner is None),
        decreases budget - tries,
    {
        if pool.try_acquire(first, worker) {
            if pool.try_acquire(second, worker) {
                if pool.balance_of(from) >= amount {
                    pool.move_amount(worker, from, to, amount);
                    pool.release(second);
                    pool.release(first);
                    return Ok(());
                } else {
                    pool.release(second);
                    pool.release(first);
                    return Err(TransferError::InsufficientFunds);
                }
            } else {
                // never hold one lock while waiting for the other: give the
                // first back before the next attempt
                pool.release(first);
            }
        }
        tries = tries + 1;
    }
    Err(TransferError::LockTimeout)
}

/// A whole transfer with a bounded outer retry around [`transfer`].
/// A lock timeout is transient and retried up to `attempts` times (a real
/// caller backs off between rounds); insufficient funds is a business-rule
/// violation and is reported at once, never retried. Exhausting the retries
/// is a terminal failure for this transfer, not a crash.
pub fn transfer_with_retry(
    pool: &mut Pool,
    worker: usize,
    from: usize,
    to: usize,
    amount: u64,
    budget: u64,
    attempts: u64,
) -> (r: Result<(), TransferError>)
    requires
        old(pool).wf(),
        from < old(pool).n(),
        to < old(pool).n(),
        from != to,
        old(pool).holds_nothing(worker),
    ensures
        final(pool).wf(),
        same_shape(*old(pool), *final(pool)),
        final(pool).sum() == old(pool).sum(),
        final(pool).holds_nothing(worker),
        same_owners(*old(pool), *final(pool)),
        (r == Ok::<(), TransferError>(())) == (attempts > 0 && budget > 0 && old(pool).res(
            from as int,
        ).owner is None && old(pool).res(to as int).owner is None && old(pool).res(
            from as int,
        ).balance >= amount),
        (r == Err::<(), TransferError>(TransferError::InsufficientFunds)) == (attempts > 0 && budget
            > 0 && old(pool).res(from as int).owner is None && old(pool).res(to as int).owner
            is None && old(pool).res(from as int).balance < amount),
        (r == Err::<(), TransferError>(TransferError::LockTimeout)) == (attempts == 0 || budget == 0
            || old(pool).res(from as int).owner is Some || old(pool).res(to as int).owner is Some),
        r is Ok ==> final(pool).res(from as int).balance == old(pool).res(from as int).balance
            - amount && final(pool).res(to as int).balance == old(pool).res(to as int).balance
            + amount && (forall|i: int|
            0 <= i < old(pool).n() && i != from && i != to
                ==> (#[trigger] final(pool).resources@[i]).balance
                == old(pool).resources@[i].balance),
        r is Err ==> same_balances(*old(pool), *final(pool)),
{
    let mut round: u64 = 0;
    while round < attempts
        invariant
            pool.wf(),
            from < pool.n(),
            to < pool.n(),
            from != to,
            pool.n() == old(pool).n(),
            pool.sum() == old(pool).sum(),
            forall|i: int| 0 <= i < pool.n() ==> pool.resources@[i] == old(pool).resources@[i],
            old(pool).holds_nothing(worker),
            round <= attempts,
            round > 0 ==> (budget == 0 || old(pool).res(from as int).owner is Some || old(
                pool,
            ).res(to as int).owner is Some),
        decreases attempts - round,
    {
        let r = transfer(pool, worker, from, to, amount, budget);
        match r {
            Result::Ok(u) => {
                return Ok(u);
            },
            Result::Err(e) => {
                if matches!(e, TransferError::InsufficientFunds) {
                    return Err(e);
                }
            },
        }
        round = round + 1;
    }
    Err(TransferError::LockTimeout)
}

} // verus!
