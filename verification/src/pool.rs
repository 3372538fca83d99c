//! The shared pool of lockable resources.
//!
//! A [`Resource`] is a numeric balance guarded by an exclusive lock, modelled
//! here by an explicit `owner` field: the lock is the only mutation authority,
//! and [`Pool::move_amount`] demands that the calling worker holds both locks.
//! A resource's id doubles as its index in the pool.

use vstd::prelude::*;
use vstd::pervasive::VecAdditionalExecFns;

verus! {

/// A lockable unit holding a numeric balance: the unit of mutual exclusion.
/// `owner` is the worker currently holding the lock, `None` when free.
pub struct Resource {
    pub id: usize,
    pub balance: u64,
    pub owner: Option<usize>,
}

/// The shared pool of resources, indexed by resource id.
pub struct Pool {
    pub resources: Vec<Resource>,
}

/// Sum of the balances of a sequence of resources.
pub open spec fn sum_balances(s: Seq<Resource>) -> int
    decreases s.len(),
{
    if s.len() == 0 {
        0
    } else {
        sum_balances(s.drop_last()) + s.last().balance
    }
}

pub proof fn lemma_sum_nonneg(s: Seq<Resource>)
    ensures
        sum_balances(s) >= 0,
    decreases s.len(),
{
    if s.len() > 0 {
        lemma_sum_nonneg(s.drop_last());
    }
}

pub proof fn lemma_sum_one(s: Seq<Resource>, i: int)
    requires
        0 <= i < s.len(),
    ensures
        sum_balances(s) >= s[i].balance,
    decreases s.len(),
{
    if i == s.len() - 1 {
        lemma_sum_nonneg(s.drop_last());
    } else {
        lemma_sum_one(s.drop_last(), i);
    }
}

/// The sum of all balances bounds the combined balance of any two distinct
/// resources; this is what keeps a credit from overflowing.
pub proof fn lemma_sum_pair(s: Seq<Resource>, i: int, j: int)
    requires
        0 <= i < s.len(),
        0 <= j < s.len(),
        i != j,
    ensures
        sum_balances(s) >= s[i].balance + s[j].balance,
    decreases s.len(),
{
    if j == s.len() - 1 {
        lemma_sum_one(s.drop_last(), i);
    } else if i == s.len() - 1 {
        lemma_sum_one(s.drop_last(), j);
    } else {
        lemma_sum_pair(s.drop_last(), i, j);
    }
}

pub proof fn lemma_sum_update(s: Seq<Resource>, i: int, r: Resource)
    requires
        0 <= i < s.len(),
    ensures
        sum_balances(s.update(i, r)) == sum_balances(s) - s[i].balance + r.balance,
    decreases s.len(),
{
    let t = s.update(i, r);
    if i == s.len() - 1 {
        assert(t.drop_last() =~= s.drop_last());
    } else {
        lemma_sum_update(s.drop_last(), i, r);
        assert(t.drop_last() =~= s.drop_last().update(i, r));
    }
}

impl Pool {
    /// Number of resources.
    pub open spec fn n(self) -> int {
        self.resources@.len() as int
    }

    pub open spec fn res(self, i: int) -> Resource {
        self.resources@[i]
    }

    pub open spec fn sum(self) -> int {
        sum_balances(self.resources@)
    }

    /// Well-formed: ids equal indices, and the total value fits in a balance,
    /// so no committed transfer can overflow a credited balance.
    pub open spec fn wf(self) -> bool {
        &&& forall|i: int| 0 <= i < self.n() ==> (#[trigger] self.resources@[i]).id == i
        &&& self.sum() <= u64::MAX
    }

    /// The worker holds the lock of resource `i`.
    pub open spec fn holds(self, worker: usize, i: int) -> bool {
        self.res(i).owner == Some(worker)
    }

    /// The worker holds no lock at all.
    pub open spec fn holds_nothing(self, worker: usize) -> bool {
        forall|i: int| 0 <= i < self.n() ==> (#[trigger] self.resources@[i]).owner != Some(worker)
    }
}

/// Both pools describe the same resources (same count and ids).
pub open spec fn same_shape(a: Pool, b: Pool) -> bool {
    &&& b.n() == a.n()
    &&& forall|i: int| 0 <= i < a.n() ==> (#[trigger] b.resources@[i]).id == a.resources@[i].id
}

pub open spec fn same_balances(a: Pool, b: Pool) -> bool {
    &&& b.n() == a.n()
    &&& forall|i: int| 0 <= i < a.n() ==> (#[trigger] b.resources@[i]).balance == a.resources@[i].balance
}

pub open spec fn same_owners(a: Pool, b: Pool) -> bool {
    &&& b.n() == a.n()
    &&& forall|i: int| 0 <= i < a.n() ==> (#[trigger] b.resources@[i]).owner == a.resources@[i].owner
}

impl Pool {
    /// Creates `count` unlocked resources, each with the same initial balance.
    pub fn new(count: usize, initial: u64) -> (p: Pool)
        requires
            count as int * initial as int <= u64::MAX,
        ensures
            p.wf(),
            p.n() == count,
            forall|i: int|
                0 <= i < count ==> (#[trigger] p.resources@[i]).balance == initial
                    && p.resources@[i].owner is None,
            p.sum() == count as int * initial as int,
    {
        let mut resources: Vec<Resource> = Vec::new();
        let mut i: usize = 0;
        while i < count
            invariant
                i <= count,
                resources@.len() == i,
                forall|k: int|
                    0 <= k < i ==> (#[trigger] resources@[k]).id == k && resources@[k].balance
                        == initial && resources@[k].owner is None,
                sum_balances(resources@) == i as int * initial as int,
            decreases count - i,
        {
            let ghost prev = resources@;
            resources.push(Resource { id: i, balance: initial, owner: None });
            proof {
                assert(resources@.drop_last() =~= prev);
                assert((i + 1) as int * initial as int == i as int * initial as int
                    + initial as int) by (nonlinear_arith);
            }
            i = i + 1;
        }
        Pool { resources }
    }

    /// Number of resources in the pool.
    pub fn resource_count(&self) -> (c: usize)
        ensures
            c == self.n(),
    {
        self.resources.len()
    }

    /// Current balance of a resource.
    pub fn balance_of(&self, rid: usize) -> (b: u64)
        requires
            rid < self.n(),
        ensures
            b == self.res(rid as int).balance,
    {
        self.resources[rid].balance
    }

    /// Whether a resource's lock is currently free.
    pub fn is_free(&self, rid: usize) -> (f: bool)
        requires
            rid < self.n(),
        ensures
            f == (self.res(rid as int).owner is None),
    {
        self.resources[rid].owner.is_none()
    }

    /// Non-blocking acquisition: succeeds exactly when the lock is free, and
    /// then records the worker as owner. Balances are never touched.
    pub fn try_acquire(&mut self, rid: usize, worker: usize) -> (ok: bool)
        requires
            old(self).wf(),
            rid < old(self).n(),
        ensures
            final(self).wf(),
            same_shape(*old(self), *final(self)),
            same_balances(*old(self), *final(self)),
            final(self).sum() == old(self).sum(),
            ok == (old(self).res(rid as int).owner is None),
            ok ==> final(self).res(rid as int).owner == Some(worker),
            !ok ==> final(self).res(rid as int).owner == old(self).res(rid as int).owner,
            forall|i: int|
                0 <= i < old(self).n() && i != rid ==> (#[trigger] final(self).resources@[i]).owner
                    == old(self).resources@[i].owner,
    {
        if self.resources[rid].owner.is_none() {
            let bal = self.resources[rid].balance;
            self.resources.set(rid, Resource { id: rid, balance: bal, owner: Some(worker) });
            proof {
                lemma_sum_update(
                    old(self).resources@,
                    rid as int,
                    self.resources@[rid as int],
                );
            }
            true
        } else {
            false
        }
    }

    /// Releases a resource's lock unconditionally; used both by a worker
    /// giving up its own hold and by recovery forcing a release.
    pub fn release(&mut self, rid: usize)
        requires
            old(self).wf(),
            rid < old(self).n(),
        ensures
            final(self).wf(),
            same_shape(*old(self), *final(self)),
            same_balances(*old(self), *final(self)),
            final(self).sum() == old(self).sum(),
            final(self).res(rid as int).owner is None,
            forall|i: int|
                0 <= i < old(self).n() && i != rid ==> (#[trigger] final(self).resources@[i]).owner
                    == old(self).resources@[i].owner,
    {
        let bal = self.resources[rid].balance;
        self.resources.set(rid, Resource { id: rid, balance: bal, owner: None });
        proof {
            lemma_sum_update(old(self).resources@, rid as int, self.resources@[rid as int]);
        }
    }

    /// Atomically debits `from` and credits `to` by `amount`. Only a worker
    /// holding both locks may call this, which is the data-model invariant
    /// that balances are mutated only under the lock. The sum of all balances
    /// is unchanged: no value is created or destroyed.
    pub fn move_amount(&mut self, worker: usize, from: usize, to: usize, amount: u64)
        requires
            old(self).wf(),
            from < old(self).n(),
            to < old(self).n(),
            from != to,
            old(self).holds(worker, from as int),
            old(self).holds(worker, to as int),
            old(self).res(from as int).balance >= amount,
        ensures
            final(self).wf(),
            same_shape(*old(self), *final(self)),
            same_owners(*old(self), *final(self)),
            final(self).sum() == old(self).sum(),
            final(self).res(from as int).balance == old(self).res(from as int).balance - amount,
            final(self).res(to as int).balance == old(self).res(to as int).balance + amount,
            forall|i: int|
                0 <= i < old(self).n() && i != from && i != to
                    ==> (#[trigger] final(self).resources@[i]).balance
                    == old(self).resources@[i].balance,
    {
        proof {
            lemma_sum_pair(self.resources@, from as int, to as int);
        }
        let fb = self.resources[from].balance;
        let tb = self.resources[to].balance;
        let fo = self.resources[from].owner;
        let to_owner = self.resources[to].owner;
        self.resources.set(from, Resource { id: from, balance: fb - amount, owner: fo });
        proof {
            lemma_sum_update(
                old(self).resources@,
                from as int,
                self.resources@[from as int],
            );
        }
        let ghost mid = self.resources@;
        self.resources.set(to, Resource { id: to, balance: tb + amount, owner: to_owner });
        proof {
            lemma_sum_update(mid, to as int, self.resources@[to as int]);
        }
    }
}

} // verus!
