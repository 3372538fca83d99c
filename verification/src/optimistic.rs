//! The optimistic transfer protocol.
//!
//! Acquisition is non-blocking and in caller-chosen order; the protocol never
//! waits. On contention it publishes what it holds and what it wants to the
//! wait-for registry and returns `Busy` — contention is expressed as returned
//! state, not as blocking. Publication always happens before any lock is
//! released, so the detector never misses a resource the worker still holds.

use vstd::prelude::*;
use crate::TransferError;
use crate::detector::DeadlockDetector;
use crate::pool::Pool;
use crate::pool::same_balances;
use crate::pool::same_owners;
use crate::pool::same_shape;

verus! {

proof fn lemma_empty_to_set(s: Seq<usize>)
    requires
        s.len() == 0,
    ensures
        s.to_set() == Set::<usize>::empty(),
{
    assert(s.to_set() =~= Set::<usize>::empty());
}

proof fn lemma_singleton_to_set(s: Seq<usize>, x: usize)
    requires
        s.len() == 1,
        s[0] == x,
    ensures
        s.to_set() == Set::<usize>::empty().insert(x),
{
    assert forall|y: usize| s.to_set().contains(y) <==> Set::<usize>::empty().insert(x).contains(
        y,
    ) by {
        if y == x {
            assert(s.contains(y));
        }
        if s.to_set().contains(y) {
            let i = choose|i: int| 0 <= i < s.len() && s[i] == y;
            assert(y == x);
        }
    }
    assert(s.to_set() =~= Set::<usize>::empty().insert(x));
}

/// One non-blocking transfer attempt from `from` to `to`. The worker's
/// registry entry afterwards describes exactly this attempt's outcome: on a
/// `Busy` contention it names the resource still held (if any) and the one
/// wanted; on completion — successful or not — it is cleared to empty sets
/// before any lock is released. No outcome leaves the worker holding a lock,
/// and the sum of all balances is unchanged by every outcome.
pub fn try_transfer(
    pool: &mut Pool,
    registry: &mut DeadlockDetector,
    worker: usize,
    from: usize,
    to: usize,
    amount: u64,
) -> (r: Result<(), TransferError>)
    requires
        old(pool).wf(),
        from < old(pool).n(),
        to < old(pool).n(),
        from != to,
        old(pool).holds_nothing(worker),
        old(registry).wf(),
    ensures
        final(pool).wf(),
        final(registry).wf(),
        same_shape(*old(pool), *final(pool)),
        final(pool).sum() == old(pool).sum(),
        final(pool).holds_nothing(worker),
        same_owners(*old(pool), *final(pool)),
        (r == Err::<(), TransferError>(TransferError::Busy)) == (old(pool).res(
            from as int,
        ).owner is Some || old(pool).res(to as int).owner is Some),
        (r == Ok::<(), TransferError>(())) == (old(pool).res(from as int).owner is None && old(
            pool,
        ).res(to as int).owner is None && old(pool).res(from as int).balance >= amount),
        (r == Err::<(), TransferError>(TransferError::InsufficientFunds)) == (old(pool).res(
            from as int,
        ).owner is None && old(pool).res(to as int).owner is None && old(pool).res(
            from as int,
        ).balance < amount),
        r is Ok ==> final(pool).res(from as int).balance == old(pool).res(from as int).balance
            - amount && final(pool).res(to as int).balance == old(pool).res(to as int).balance
            + amount && (forall|i: int|
            0 <= i < old(pool).n() && i != from && i != to
                ==> (#[trigger] final(pool).resources@[i]).balance
                == old(pool).resources@[i].balance),
        r is Err ==> same_balances(*old(pool), *final(pool)),
        old(pool).res(from as int).owner is Some ==> final(registry).state_map() == old(
            registry,
        ).state_map().insert(
            worker,
            (Set::<usize>::empty(), Set::<usize>::empty().insert(from)),
        ),
        old(pool).res(from as int).owner is None && old(pool).res(to as int).owner is Some
            ==> final(registry).state_map() == old(registry).state_map().insert(
            worker,
            (Set::<usize>::empty().insert(from), Set::<usize>::empty().insert(to)),
        ),
        old(pool).res(from as int).owner is None && old(pool).res(to as int).owner is None
            ==> final(registry).state_map() == old(registry).state_map().insert(
            worker,
            (Set::<usize>::empty(), Set::<usize>::empty()),
        ),
{
    if pool.try_acquire(from, worker) {
        if pool.try_acquire(to, worker) {
            let r: Result<(), TransferError> = if pool.balance_of(from) >= amount {
                pool.move_amount(worker, from, to, amount);
                Ok(())
            } else {
                Err(TransferError::InsufficientFunds)
            };
            // the attempt is over: clear the entry, then release — the
            // detector must never observe a hold that was already given back
            let hold: Vec<usize> = Vec::new();
            let wait: Vec<usize> = Vec::new();
            proof {
                lemma_empty_to_set(hold@);
                lemma_empty_to_set(wait@);
            }
            registry.update_state(worker, hold, wait);
            pool.release(to);
            pool.release(from);
            r
        } else {
            // publish the hold and the want first, then give the hold back
            let mut hold: Vec<usize> = Vec::new();
            hold.push(from);
            let mut wait: Vec<usize> = Vec::new();
            wait.push(to);
            proof {
                lemma_singleton_to_set(hold@, from);
                lemma_singleton_to_set(wait@, to);
            }
            registry.update_state(worker, hold, wait);
            pool.release(from);
            Err(TransferError::Busy)
        }
    } else {
        let hold: Vec<usize> = Vec::new();
        let mut wait: Vec<usize> = Vec::new();
        wait.push(from);
        proof {
            lemma_empty_to_set(hold@);
            lemma_singleton_to_set(wait@, from);
        }
        registry.update_state(worker, hold, wait);
        Err(TransferError::Busy)
    }
}

} // verus!
