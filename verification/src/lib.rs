//! A concurrent resource-transfer library with deadlock avoidance and
//! detection.
//!
//! Workers move value between lockable resources. Two protocols are offered:
//! a lock-ordered protocol that acquires resources in a global total order,
//! which makes deadlock structurally impossible, and an optimistic protocol
//! that never blocks and instead publishes its hold/wait state to a registry.
//! A detector derives a wait-for graph from the registry and reports cycles,
//! and a recovery controller breaks a reported cycle by releasing the
//! participants' holds.

pub mod detector;
pub mod optimistic;
pub mod ordered;
pub mod pool;
pub mod recovery;

use vstd::prelude::*;

verus! {

/// The ways a transfer attempt can fail.
///
/// `InsufficientFunds` is a business-rule violation and is not retried.
/// `LockTimeout` is transient: the lock-ordered protocol exhausted its
/// acquisition budget. `Busy` is the optimistic protocol's non-blocking
/// contention signal and drives a re-attempt.
#[derive(Clone, Copy, Debug, PartialEq, Eq, Structural)]
pub enum TransferError {
    InsufficientFunds,
    LockTimeout,
    Busy,
}

/// Orders a pair of distinct resource ids by the global total order that
/// every caller of the lock-ordered protocol must apply: the smaller id is
/// always acquired first, so no two concurrent attempts ever acquire the
/// same pair of resources in opposite order.
pub fn order_pair(a: usize, b: usize) -> (r: (usize, usize))
    requires
        a != b,
    ensures
        r.0 < r.1,
        (r.0 == a && r.1 == b) || (r.0 == b && r.1 == a),
{
    if a < b {
        (a, b)
    } else {
        (b, a)
    }
}

} // verus!
