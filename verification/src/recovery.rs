//! Recovery from a detected deadlock.
//!
//! The controller consumes a cycle reported by the detector. It never picks a
//! winner: it only breaks the cycle by forcing every implicated worker to
//! release its partial hold and by clearing its registry entry, after which
//! the workers independently retry under the same protocol, each after a
//! backoff with caller-drawn jitter so the same cycle is unlikely to re-form
//! at once.

use vstd::prelude::*;
use crate::detector::DeadlockDetector;
use crate::detector::vec_contains;
use crate::pool::Pool;
use crate::pool::same_balances;
use crate::pool::same_shape;

verus! {

/// The resource owner is one of the implicated workers.
pub open spec fn owner_in(o: Option<usize>, c: Seq<usize>) -> bool {
    o is Some && c.contains(o->0)
}

/// The registry map after every worker named in `c` is cleared to empty sets.
pub open spec fn cleared(m: Map<usize, (Set<usize>, Set<usize>)>, c: Seq<usize>) -> Map<
    usize,
    (Set<usize>, Set<usize>),
>
    decreases c.len(),
{
    if c.len() == 0 {
        m
    } else {
        cleared(m, c.drop_last()).insert(c.last(), (Set::<usize>::empty(), Set::<usize>::empty()))
    }
}

/// What clearing does: implicated workers end with empty hold and wait sets,
/// everyone else's entry is untouched.
pub proof fn lemma_cleared_props(m: Map<usize, (Set<usize>, Set<usize>)>, c: Seq<usize>)
    ensures
        forall|w: usize| #[trigger]
            cleared(m, c).dom().contains(w) <==> (m.dom().contains(w) || c.contains(w)),
        forall|w: usize|
            c.contains(w) ==> #[trigger] cleared(m, c)[w] == (
                Set::<usize>::empty(),
                Set::<usize>::empty(),
            ),
        forall|w: usize|
            !c.contains(w) && m.dom().contains(w) ==> #[trigger] cleared(m, c)[w] == m[w],
    decreases c.len(),
{
    if c.len() > 0 {
        let d = c.drop_last();
        let e = (Set::<usize>::empty(), Set::<usize>::empty());
        lemma_cleared_props(m, d);
        assert forall|w: usize| #[trigger] c.contains(w) <==> (d.contains(w) || w == c.last()) by {
            if c.contains(w) {
                let i = choose|i: int| 0 <= i < c.len() && c[i] == w;
                if i < c.len() - 1 {
                    assert(d[i] == w);
                    assert(d.contains(w));
                }
            }
            if d.contains(w) {
                let i = choose|i: int| 0 <= i < d.len() && d[i] == w;
                assert(c[i] == w);
            }
            if w == c.last() {
                assert(c[c.len() - 1] == w);
            }
        }
        assert(cleared(m, c) == cleared(m, d).insert(c.last(), e));
        assert forall|w: usize| #[trigger]
            cleared(m, c).dom().contains(w) <==> (m.dom().contains(w) || c.contains(w)) by {
            assert(cleared(m, d).dom().contains(w) <==> (m.dom().contains(w) || d.contains(w)));
        }
        assert forall|w: usize| c.contains(w) implies #[trigger] cleared(m, c)[w] == e by {
            if w != c.last() {
                assert(d.contains(w));
                assert(cleared(m, d)[w] == e);
            }
        }
        assert forall|w: usize| !c.contains(w) && m.dom().contains(w) implies #[trigger] cleared(
            m,
            c,
        )[w] == m[w] by {
            assert(!d.contains(w));
            assert(cleared(m, d)[w] == m[w]);
        }
    }
}

/// Breaks a detected cycle: every implicated worker's holds are forcibly
/// released and its registry entry is cleared, so each worker is eligible to
/// retry from a clean state. Balances are never touched, workers outside the
/// cycle keep their locks and entries, and no winner is chosen.
pub fn recover(pool: &mut Pool, registry: &mut DeadlockDetector, cycle: &Vec<usize>)
    requires
        old(pool).wf(),
        old(registry).wf(),
    ensures
        final(pool).wf(),
        final(registry).wf(),
        same_shape(*old(pool), *final(pool)),
        same_balances(*old(pool), *final(pool)),
        final(pool).sum() == old(pool).sum(),
        forall|i: int|
            0 <= i < old(pool).n() ==> (#[trigger] final(pool).resources@[i]).owner == (if owner_in(
                old(pool).resources@[i].owner,
                cycle@,
            ) {
                None::<usize>
            } else {
                old(pool).resources@[i].owner
            }),
        final(registry).state_map() == cleared(old(registry).state_map(), cycle@),
{
    let n = pool.resource_count();
    let mut i: usize = 0;
    while i < n
        invariant
            pool.wf(),
            n == pool.n(),
            n == old(pool).n(),
            i <= n,
            same_shape(*old(pool), *pool),
            same_balances(*old(pool), *pool),
            pool.sum() == old(pool).sum(),
            forall|j: int|
                0 <= j < i ==> (#[trigger] pool.resources@[j]).owner == (if owner_in(
                    old(pool).resources@[j].owner,
                    cycle@,
                ) {
                    None::<usize>
                } else {
                    old(pool).resources@[j].owner
                }),
            forall|j: int|
                i <= j < n ==> (#[trigger] pool.resources@[j]).owner
                    == old(pool).resources@[j].owner,
        decreases n - i,
    {
        let o = pool.resources[i].owner;
        match o {
            Some(w) => {
                if vec_contains(cycle, w) {
                    pool.release(i);
                }
            },
            None => {},
        }
        i = i + 1;
    }
    let len = cycle.len();
    let mut k: usize = 0;
    while k < len
        invariant
            registry.wf(),
            len == cycle@.len(),
            k <= len,
            registry.state_map() == cleared(old(registry).state_map(), cycle@.subrange(0, k as int)),
        decreases len - k,
    {
        let w = cycle[k];
        let hold: Vec<usize> = Vec::new();
        let wait: Vec<usize> = Vec::new();
        proof {
            assert(hold@.to_set() =~= Set::<usize>::empty());
            assert(wait@.to_set() =~= Set::<usize>::empty());
        }
        registry.update_state(w, hold, wait);
        proof {
            let pre = cycle@.subrange(0, k as int);
            let post = cycle@.subrange(0, k as int + 1);
            assert(post.drop_last() =~= pre);
            assert(post.last() == w);
        }
        k = k + 1;
    }
    proof {
        assert(cycle@.subrange(0, cycle@.len() as int) =~= cycle@);
    }
}

/// The delay before a recovered worker retries: grows with the attempt count
/// and is perturbed by `jitter`, a random value the caller draws, so that the
/// implicated workers do not immediately re-form the same cycle. Saturates at
/// the largest representable delay.
pub open spec fn backoff_spec(base: u64, attempt: u64, jitter: u64) -> u64 {
    let total = base as int * (attempt as int + 1) + jitter as int;
    if total > u64::MAX as int {
        u64::MAX
    } else {
        total as u64
    }
}

/// Computes [`backoff_spec`] exactly, without overflow.
pub fn retry_backoff(base: u64, attempt: u64, jitter: u64) -> (d: u64)
    requires
        attempt < u64::MAX,
    ensures
        d == backoff_spec(base, attempt, jitter),
{
    let scaled = base.checked_mul(attempt + 1);
    match scaled {
        Some(s) => {
            match s.checked_add(jitter) {
                Some(t) => t,
                None => u64::MAX,
            }
        },
        None => u64::MAX,
    }
}

} // verus!
