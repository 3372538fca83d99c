//! Wait-for state registry and deadlock detector.
//!
//! The registry maps each worker to the set of resources it currently holds
//! and the set it is waiting for. Each worker replaces its own entry
//! wholesale after every acquisition attempt, so the latest publication fully
//! describes its hold/wait state. The detector derives a directed wait-for
//! graph from the registry — an edge `A -> B` means worker `A` wants a
//! resource worker `B` holds — and searches it for a cycle with an iterative
//! three-colour depth-first traversal.

use vstd::prelude::*;
use vstd::pervasive::VecAdditionalExecFns;

verus! {

/// One worker's published hold/wait state.
pub struct WorkerState {
    pub worker_id: usize,
    pub held: Vec<usize>,
    pub wanted: Vec<usize>,
}

/// The hold and wait sets an entry publishes.
pub open spec fn entry_state(e: WorkerState) -> (Set<usize>, Set<usize>) {
    (e.held@.to_set(), e.wanted@.to_set())
}

/// No two entries describe the same worker.
pub open spec fn ids_distinct(s: Seq<WorkerState>) -> bool {
    forall|i: int, j: int|
        #![trigger s[i], s[j]]
        0 <= i < j < s.len() ==> s[i].worker_id != s[j].worker_id
}

pub open spec fn has_worker(s: Seq<WorkerState>, w: usize) -> bool {
    exists|i: int| 0 <= i < s.len() && (#[trigger] s[i]).worker_id == w
}

pub open spec fn index_of(s: Seq<WorkerState>, w: usize) -> int {
    choose|i: int| 0 <= i < s.len() && (#[trigger] s[i]).worker_id == w
}

/// The registry as a mapping from worker id to (held, wanted) sets.
pub open spec fn state_map_of(s: Seq<WorkerState>) -> Map<usize, (Set<usize>, Set<usize>)> {
    Map::new(|w: usize| has_worker(s, w), |w: usize| entry_state(s[index_of(s, w)]))
}

/// With distinct ids, an entry's index is the unique index for its worker.
pub proof fn lemma_index_of(s: Seq<WorkerState>, w: usize, i: int)
    requires
        ids_distinct(s),
        0 <= i < s.len(),
        s[i].worker_id == w,
    ensures
        has_worker(s, w),
        index_of(s, w) == i,
{
    assert(has_worker(s, w));
    let j = index_of(s, w);
    assert(0 <= j < s.len() && s[j].worker_id == w);
    if i < j {
        assert(s[i].worker_id != s[j].worker_id);
    } else if j < i {
        assert(s[j].worker_id != s[i].worker_id);
    }
}

/// Replacing an entry in place is an insert on the registry map.
proof fn lemma_map_replace(s: Seq<WorkerState>, i: int, e: WorkerState)
    requires
        ids_distinct(s),
        0 <= i < s.len(),
        e.worker_id == s[i].worker_id,
    ensures
        ids_distinct(s.update(i, e)),
        state_map_of(s.update(i, e)) == state_map_of(s).insert(e.worker_id, entry_state(e)),
{
    let t = s.update(i, e);
    assert forall|p: int, q: int|
        #![trigger t[p], t[q]]
        0 <= p < q < t.len() implies t[p].worker_id != t[q].worker_id by {
        assert(s[p].worker_id != s[q].worker_id);
    }
    assert forall|w: usize| has_worker(t, w) <==> has_worker(s, w) by {
        if has_worker(t, w) {
            let k = choose|k: int| 0 <= k < t.len() && (#[trigger] t[k]).worker_id == w;
            if k == i {
                assert(s[i].worker_id == w);
            } else {
                assert(s[k].worker_id == w);
            }
            assert(has_worker(s, w));
        }
        if has_worker(s, w) {
            let k = choose|k: int| 0 <= k < s.len() && (#[trigger] s[k]).worker_id == w;
            if k == i {
                assert(t[i].worker_id == w);
            } else {
                assert(t[k].worker_id == w);
            }
            assert(has_worker(t, w));
        }
    }
    assert forall|w: usize| #[trigger]
        state_map_of(t).dom().contains(w) implies state_map_of(t)[w] == state_map_of(s).insert(
        e.worker_id,
        entry_state(e),
    )[w] by {
        if w == e.worker_id {
            lemma_index_of(t, w, i);
        } else {
            let k = choose|k: int| 0 <= k < s.len() && (#[trigger] s[k]).worker_id == w;
            assert(k != i);
            lemma_index_of(s, w, k);
            lemma_index_of(t, w, k);
        }
    }
    assert(state_map_of(t) =~= state_map_of(s).insert(e.worker_id, entry_state(e)));
}

/// Appending an entry for a new worker is an insert on the registry map.
proof fn lemma_map_push(s: Seq<WorkerState>, e: WorkerState)
    requires
        ids_distinct(s),
        !has_worker(s, e.worker_id),
    ensures
        ids_distinct(s.push(e)),
        state_map_of(s.push(e)) == state_map_of(s).insert(e.worker_id, entry_state(e)),
{
    let t = s.push(e);
    assert forall|p: int, q: int|
        #![trigger t[p], t[q]]
        0 <= p < q < t.len() implies t[p].worker_id != t[q].worker_id by {
        if q == s.len() {
            assert(t[p] == s[p]);
            if s[p].worker_id == e.worker_id {
                assert(has_worker(s, e.worker_id));
            }
        } else {
            assert(s[p].worker_id != s[q].worker_id);
        }
    }
    assert forall|w: usize| has_worker(t, w) <==> (has_worker(s, w) || w == e.worker_id) by {
        if has_worker(t, w) {
            let k = choose|k: int| 0 <= k < t.len() && (#[trigger] t[k]).worker_id == w;
            if k == s.len() {
                assert(w == e.worker_id);
            } else {
                assert(s[k].worker_id == w);
                assert(has_worker(s, w));
            }
        }
        if has_worker(s, w) {
            let k = choose|k: int| 0 <= k < s.len() && (#[trigger] s[k]).worker_id == w;
            assert(t[k].worker_id == w);
            assert(has_worker(t, w));
        }
        if w == e.worker_id {
            assert(t[s.len() as int].worker_id == w);
            assert(has_worker(t, w));
        }
    }
    assert forall|w: usize| #[trigger]
        state_map_of(t).dom().contains(w) implies state_map_of(t)[w] == state_map_of(s).insert(
        e.worker_id,
        entry_state(e),
    )[w] by {
        if w == e.worker_id {
            lemma_index_of(t, w, s.len() as int);
        } else {
            let k = choose|k: int| 0 <= k < s.len() && (#[trigger] s[k]).worker_id == w;
            lemma_index_of(s, w, k);
            lemma_index_of(t, w, k);
        }
    }
    assert(state_map_of(t) =~= state_map_of(s).insert(e.worker_id, entry_state(e)));
}

/// A wait-for edge: worker `a` wants a resource that a different worker `b`
/// currently holds.
pub open spec fn wait_edge(m: Map<usize, (Set<usize>, Set<usize>)>, a: usize, b: usize) -> bool {
    &&& a != b
    &&& m.dom().contains(a)
    &&& m.dom().contains(b)
    &&& exists|r: usize| #[trigger] m[a].1.contains(r) && m[b].0.contains(r)
}

/// A closed chain of wait-for edges through pairwise distinct workers: the
/// exact set of deadlocked participants, never a superset or subset.
pub open spec fn is_wait_cycle(m: Map<usize, (Set<usize>, Set<usize>)>, c: Seq<usize>) -> bool {
    &&& c.len() >= 1
    &&& forall|i: int| 0 <= i < c.len() - 1 ==> #[trigger] wait_edge(m, c[i], c[i + 1])
    &&& wait_edge(m, c[c.len() - 1], c[0])
    &&& forall|i: int, j: int| #![trigger c[i], c[j]] 0 <= i < j < c.len() ==> c[i] != c[j]
}

/// No worker's wanted set intersects another worker's held set: the wait-for
/// graph has no edge at all.
pub open spec fn no_conflicts(m: Map<usize, (Set<usize>, Set<usize>)>) -> bool {
    forall|a: usize, b: usize| !wait_edge(m, a, b)
}

/// Every worker only waits for resources ordered strictly after everything it
/// holds. The lock-ordered protocol maintains this by always acquiring the
/// smaller resource id first.
pub open spec fn ordered_discipline(m: Map<usize, (Set<usize>, Set<usize>)>) -> bool {
    forall|w: usize, h: usize, x: usize|
        m.dom().contains(w) && #[trigger] m[w].0.contains(h) && #[trigger] m[w].1.contains(x)
            ==> h < x
}

/// The wait-for state registry and its cycle detector.
pub struct DeadlockDetector {
    pub entries: Vec<WorkerState>,
}

impl DeadlockDetector {
    /// Well-formed: one entry per worker.
    pub open spec fn wf(self) -> bool {
        ids_distinct(self.entries@)
    }

    /// The registry's contents as a map from worker id to (held, wanted).
    pub open spec fn state_map(self) -> Map<usize, (Set<usize>, Set<usize>)> {
        state_map_of(self.entries@)
    }

    /// An empty registry.
    pub fn new() -> (d: DeadlockDetector)
        ensures
            d.wf(),
            d.state_map() == Map::<usize, (Set<usize>, Set<usize>)>::empty(),
    {
        let d = DeadlockDetector { entries: Vec::new() };
        proof {
            assert(d.state_map() =~= Map::<usize, (Set<usize>, Set<usize>)>::empty());
        }
        d
    }

    /// Replaces worker `tid`'s entry wholesale: the worker's latest
    /// publication fully describes its current hold/wait state. Updating an
    /// entry with the state it already publishes leaves the registry map
    /// unchanged (a second identical call is idempotent).
    pub fn update_state(&mut self, tid: usize, hold: Vec<usize>, wait: Vec<usize>)
        requires
            old(self).wf(),
        ensures
            final(self).wf(),
            final(self).state_map() == old(self).state_map().insert(
                tid,
                (hold@.to_set(), wait@.to_set()),
            ),
    {
        let n = self.entries.len();
        let mut i: usize = 0;
        while i < n
            invariant
                old(self).wf(),
                self.entries@ == old(self).entries@,
                n == self.entries@.len(),
                i <= n,
                forall|k: int| 0 <= k < i ==> (#[trigger] self.entries@[k]).worker_id != tid,
            decreases n - i,
        {
            if self.entries[i].worker_id == tid {
                let e = WorkerState { worker_id: tid, held: hold, wanted: wait };
                proof {
                    lemma_map_replace(self.entries@, i as int, e);
                }
                self.entries.set(i, e);
                return;
            }
            i = i + 1;
        }
        let e = WorkerState { worker_id: tid, held: hold, wanted: wait };
        proof {
            if has_worker(self.entries@, tid) {
                let k = choose|k: int|
                    0 <= k < self.entries@.len() && (#[trigger] self.entries@[k]).worker_id == tid;
                assert(false);
            }
            lemma_map_push(self.entries@, e);
        }
        self.entries.push(e);
    }
}

/// The resource that witnesses a wait-for edge.
spec fn edge_resource(m: Map<usize, (Set<usize>, Set<usize>)>, a: usize, b: usize) -> usize {
    choose|r: usize| #[trigger] m[a].1.contains(r) && m[b].0.contains(r)
}

proof fn lemma_edge_resource(m: Map<usize, (Set<usize>, Set<usize>)>, a: usize, b: usize)
    requires
        wait_edge(m, a, b),
    ensures
        m[a].1.contains(edge_resource(m, a, b)),
        m[b].0.contains(edge_resource(m, a, b)),
{
    let r = choose|r: usize| #[trigger] m[a].1.contains(r) && m[b].0.contains(r);
    assert(m[a].1.contains(r) && m[b].0.contains(r));
}

/// The position after `i` along a cycle, wrapping back to the start.
spec fn cyc_next(c: Seq<usize>, i: int) -> int {
    if i == c.len() - 1 {
        0int
    } else {
        i + 1
    }
}

/// The witness resource of the cycle edge leaving position `i`.
spec fn cyc_res(m: Map<usize, (Set<usize>, Set<usize>)>, c: Seq<usize>, i: int) -> usize {
    edge_resource(m, c[i], c[cyc_next(c, i)])
}

proof fn lemma_cycle_edge(m: Map<usize, (Set<usize>, Set<usize>)>, c: Seq<usize>, i: int)
    requires
        is_wait_cycle(m, c),
        0 <= i < c.len(),
    ensures
        wait_edge(m, c[i], c[cyc_next(c, i)]),
{
    if i < c.len() - 1 {
        assert(wait_edge(m, c[i], c[i + 1]));
    }
}

/// Along a cycle, the witness resources strictly increase under the ordered
/// discipline: the edge into a worker names a resource it holds, the edge out
/// names one it wants, and it only wants resources above everything it holds.
proof fn lemma_step_increases(m: Map<usize, (Set<usize>, Set<usize>)>, c: Seq<usize>, i: int)
    requires
        ordered_discipline(m),
        is_wait_cycle(m, c),
        0 <= i < c.len(),
    ensures
        cyc_res(m, c, i) < cyc_res(m, c, cyc_next(c, i)),
{
    let j = cyc_next(c, i);
    let k = cyc_next(c, j);
    lemma_cycle_edge(m, c, i);
    lemma_cycle_edge(m, c, j);
    lemma_edge_resource(m, c[i], c[j]);
    lemma_edge_resource(m, c[j], c[k]);
    assert(m.dom().contains(c[j]));
}

proof fn lemma_chain_increases(m: Map<usize, (Set<usize>, Set<usize>)>, c: Seq<usize>, i: int)
    requires
        ordered_discipline(m),
        is_wait_cycle(m, c),
        1 <= i < c.len(),
    ensures
        cyc_res(m, c, 0) < cyc_res(m, c, i),
    decreases i,
{
    if i == 1 {
        lemma_step_increases(m, c, 0);
    } else {
        lemma_chain_increases(m, c, i - 1);
        lemma_step_increases(m, c, i - 1);
    }
}

/// Under the ordered acquisition discipline the wait-for graph is acyclic.
/// This is the structural reason the lock-ordered protocol cannot deadlock,
/// for any number of workers and any interleaving of their publications.
pub proof fn lemma_ordered_no_cycle(m: Map<usize, (Set<usize>, Set<usize>)>, c: Seq<usize>)
    requires
        ordered_discipline(m),
    ensures
        !is_wait_cycle(m, c),
{
    if is_wait_cycle(m, c) {
        if c.len() == 1 {
            assert(wait_edge(m, c[0], c[0]));
        } else {
            lemma_chain_increases(m, c, c.len() - 1);
            lemma_step_increases(m, c, c.len() - 1);
        }
    }
}

/// A finishing order is edge-closed when every wait-for successor of a node
/// finishes strictly before the node itself: exactly what a depth-first
/// traversal that found no cycle leaves behind.
spec fn edge_closed(
    m: Map<usize, (Set<usize>, Set<usize>)>,
    s: Seq<WorkerState>,
    order: Seq<int>,
) -> bool {
    forall|p: int, w: int|
        #![trigger wait_edge(m, s[order[p]].worker_id, s[w].worker_id)]
        0 <= p < order.len() && 0 <= w < s.len() && wait_edge(
            m,
            s[order[p]].worker_id,
            s[w].worker_id,
        ) ==> exists|q: int| 0 <= q < p && order[q] == w
}

/// The requirements a completed traversal's finishing order satisfies.
spec fn order_wf(m: Map<usize, (Set<usize>, Set<usize>)>, s: Seq<WorkerState>, order: Seq<int>) -> bool {
    &&& forall|p: int| 0 <= p < order.len() ==> 0 <= #[trigger] order[p] < s.len()
    &&& forall|p: int, q: int|
        #![trigger order[p], order[q]]
        0 <= p < q < order.len() ==> order[p] != order[q]
    &&& edge_closed(m, s, order)
}

/// The (unique) position of entry index `v` in the finishing order.
spec fn order_pos(order: Seq<int>, v: int) -> int {
    choose|q: int| 0 <= q < order.len() && order[q] == v
}

/// The position at which the entry of cycle member `i` finished.
spec fn cyc_pos(s: Seq<WorkerState>, order: Seq<int>, c: Seq<usize>, i: int) -> int {
    order_pos(order, index_of(s, c[i]))
}

/// Along a cycle, finishing positions strictly decrease: a node's cycle
/// successor finished before it.
proof fn lemma_pos_step(
    m: Map<usize, (Set<usize>, Set<usize>)>,
    s: Seq<WorkerState>,
    order: Seq<int>,
    c: Seq<usize>,
    i: int,
)
    requires
        ids_distinct(s),
        m == state_map_of(s),
        forall|v: int| 0 <= v < s.len() ==> order.contains(v),
        order_wf(m, s, order),
        is_wait_cycle(m, c),
        0 <= i < c.len(),
    ensures
        cyc_pos(s, order, c, cyc_next(c, i)) < cyc_pos(s, order, c, i),
{
    let j = cyc_next(c, i);
    lemma_cycle_edge(m, c, i);
    assert(m.dom().contains(c[i]) && m.dom().contains(c[j]));
    assert(has_worker(s, c[i]) && has_worker(s, c[j]));
    let vi = index_of(s, c[i]);
    let vj = index_of(s, c[j]);
    assert(0 <= vi < s.len() && s[vi].worker_id == c[i]);
    assert(0 <= vj < s.len() && s[vj].worker_id == c[j]);
    assert(order.contains(vi));
    assert(order.contains(vj));
    let pi = cyc_pos(s, order, c, i);
    let pj = cyc_pos(s, order, c, j);
    assert(0 <= pi < order.len() && order[pi] == vi);
    assert(0 <= pj < order.len() && order[pj] == vj);
    assert(wait_edge(m, s[order[pi]].worker_id, s[vj].worker_id));
    let q = choose|q: int| 0 <= q < pi && order[q] == vj;
    assert(0 <= q < pi && order[q] == vj);
    if q < pj {
        assert(order[q] != order[pj]);
    } else if pj < q {
        assert(order[pj] != order[q]);
    }
}

proof fn lemma_pos_chain(
    m: Map<usize, (Set<usize>, Set<usize>)>,
    s: Seq<WorkerState>,
    order: Seq<int>,
    c: Seq<usize>,
    i: int,
)
    requires
        ids_distinct(s),
        m == state_map_of(s),
        forall|v: int| 0 <= v < s.len() ==> order.contains(v),
        order_wf(m, s, order),
        is_wait_cycle(m, c),
        1 <= i < c.len(),
    ensures
        cyc_pos(s, order, c, i) < cyc_pos(s, order, c, 0),
    decreases i,
{
    if i == 1 {
        lemma_pos_step(m, s, order, c, 0);
    } else {
        lemma_pos_chain(m, s, order, c, i - 1);
        lemma_pos_step(m, s, order, c, i - 1);
    }
}

/// A wait-for graph that admits an edge-closed finishing order covering every
/// node is acyclic: the member of a cycle that finished first would need its
/// successor to have finished even earlier.
proof fn lemma_order_acyclic(
    m: Map<usize, (Set<usize>, Set<usize>)>,
    s: Seq<WorkerState>,
    order: Seq<int>,
    c: Seq<usize>,
)
    requires
        ids_distinct(s),
        m == state_map_of(s),
        forall|v: int| 0 <= v < s.len() ==> order.contains(v),
        order_wf(m, s, order),
    ensures
        !is_wait_cycle(m, c),
{
    if is_wait_cycle(m, c) {
        if c.len() == 1 {
            assert(wait_edge(m, c[0], c[0]));
        } else {
            lemma_pos_chain(m, s, order, c, c.len() - 1);
            lemma_pos_step(m, s, order, c, c.len() - 1);
        }
    }
}

/// When no worker's wanted set intersects another worker's held set, the
/// wait-for graph has no edge, hence no cycle.
pub proof fn lemma_no_conflicts_no_cycle(m: Map<usize, (Set<usize>, Set<usize>)>, c: Seq<usize>)
    requires
        no_conflicts(m),
    ensures
        !is_wait_cycle(m, c),
{
    if is_wait_cycle(m, c) {
        assert(wait_edge(m, c[c.len() - 1], c[0]));
    }
}

/// Linear scan for membership in a plain id vector.
pub(crate) fn vec_contains(v: &Vec<usize>, x: usize) -> (r: bool)
    ensures
        r == v@.contains(x),
{
    let mut i: usize = 0;
    while i < v.len()
        invariant
            i <= v@.len(),
            forall|k: int| 0 <= k < i ==> v@[k] != x,
        decreases v@.len() - i,
    {
        if v[i] == x {
            return true;
        }
        i = i + 1;
    }
    false
}

/// Whether two id vectors share an element.
fn shares_element(a: &Vec<usize>, b: &Vec<usize>) -> (r: bool)
    ensures
        r == exists|x: usize| #[trigger] a@.contains(x) && b@.contains(x),
{
    let mut t: usize = 0;
    while t < a.len()
        invariant
            t <= a@.len(),
            forall|k: int| 0 <= k < t ==> !b@.contains(#[trigger] a@[k]),
        decreases a@.len() - t,
    {
        if vec_contains(b, a[t]) {
            assert(a@.contains(a@[t as int]));
            return true;
        }
        t = t + 1;
    }
    proof {
        if exists|x: usize| #[trigger] a@.contains(x) && b@.contains(x) {
            let x = choose|x: usize| #[trigger] a@.contains(x) && b@.contains(x);
            let k = choose|k: int| 0 <= k < a@.len() && a@[k] == x;
        }
    }
    false
}

/// One suspended visit of the traversal: a node, its successor list, and how
/// many successors have already been examined.
struct Frame {
    node: usize,
    succs: Vec<usize>,
    next: usize,
}

/// Number of nodes the traversal has not touched yet (neither on the path nor
/// finished); first component of the loop's termination measure.
spec fn count_white(grey: Seq<bool>, done: Seq<bool>, upto: int) -> int
    decreases upto,
{
    if upto <= 0 {
        0
    } else {
        count_white(grey, done, upto - 1) + if !grey[upto - 1] && !done[upto - 1] {
            1int
        } else {
            0int
        }
    }
}

proof fn lemma_count_white_nonneg(grey: Seq<bool>, done: Seq<bool>, upto: int)
    ensures
        count_white(grey, done, upto) >= 0,
    decreases upto,
{
    if upto > 0 {
        lemma_count_white_nonneg(grey, done, upto - 1);
    }
}

/// Changing the colours of one node changes the white count only by that
/// node's own contribution.
proof fn lemma_count_white_update(
    grey: Seq<bool>,
    done: Seq<bool>,
    grey2: Seq<bool>,
    done2: Seq<bool>,
    v: int,
    upto: int,
)
    requires
        grey2.len() == grey.len(),
        done2.len() == done.len(),
        0 <= v,
        upto <= grey.len(),
        upto <= done.len(),
        forall|k: int| 0 <= k < grey.len() && k != v ==> grey2[k] == grey[k],
        forall|k: int| 0 <= k < done.len() && k != v ==> done2[k] == done[k],
    ensures
        count_white(grey2, done2, upto) == count_white(grey, done, upto) - (if v < upto && !grey[v]
            && !done[v] {
            1int
        } else {
            0int
        }) + (if v < upto && !grey2[v] && !done2[v] {
            1int
        } else {
            0int
        }),
    decreases upto,
{
    if upto > 0 {
        lemma_count_white_update(grey, done, grey2, done2, v, upto - 1);
    }
}

/// Total number of successor examinations still owed to the frames on the
/// stack; together with the stack length, the second component of the
/// termination measure.
spec fn rem_sum(st: Seq<Frame>) -> int
    decreases st.len(),
{
    if st.len() == 0 {
        0
    } else {
        rem_sum(st.drop_last()) + (st.last().succs@.len() - st.last().next)
    }
}

proof fn lemma_rem_sum_nonneg(st: Seq<Frame>)
    requires
        forall|p: int| 0 <= p < st.len() ==> (#[trigger] st[p]).next <= st[p].succs@.len(),
    ensures
        rem_sum(st) >= 0,
    decreases st.len(),
{
    if st.len() > 0 {
        lemma_rem_sum_nonneg(st.drop_last());
    }
}

impl DeadlockDetector {
    /// The worker ids of the entries, in registry order.
    fn worker_at(&self, i: usize) -> (w: usize)
        requires
            i < self.entries@.len(),
        ensures
            w == self.entries@[i as int].worker_id,
    {
        self.entries[i].worker_id
    }

    /// Successor entry indices of entry `ai` in the wait-for graph: an index
    /// is returned exactly when its worker holds a resource that `ai`'s
    /// worker wants.
    fn successors(&self, ai: usize) -> (out: Vec<usize>)
        requires
            self.wf(),
            ai < self.entries@.len(),
        ensures
            forall|k: int|
                0 <= k < out@.len() ==> (#[trigger] out@[k]) < self.entries@.len() && wait_edge(
                    self.state_map(),
                    self.entries@[ai as int].worker_id,
                    self.entries@[out@[k] as int].worker_id,
                ),
            forall|j: int|
                0 <= j < self.entries@.len() && wait_edge(
                    self.state_map(),
                    self.entries@[ai as int].worker_id,
                    (#[trigger] self.entries@[j]).worker_id,
                ) ==> out@.contains(j as usize),
    {
        let ghost s = self.entries@;
        let ghost m = self.state_map();
        let mut out: Vec<usize> = Vec::new();
        let n = self.entries.len();
        let mut j: usize = 0;
        while j < n
            invariant
                self.wf(),
                s == self.entries@,
                m == self.state_map(),
                n == s.len(),
                ai < n,
                j <= n,
                forall|k: int|
                    0 <= k < out@.len() ==> (#[trigger] out@[k]) < n && wait_edge(
                        m,
                        s[ai as int].worker_id,
                        s[out@[k] as int].worker_id,
                    ),
                forall|j2: int|
                    0 <= j2 < j && wait_edge(
                        m,
                        s[ai as int].worker_id,
                        (#[trigger] s[j2]).worker_id,
                    ) ==> out@.contains(j2 as usize),
            decreases n - j,
        {
            let ghost out0 = out@;
            let hit = j != ai && shares_element(&self.entries[ai].wanted, &self.entries[j].held);
            if hit {
                proof {
                    let wa = s[ai as int].worker_id;
                    let wb = s[j as int].worker_id;
                    lemma_index_of(s, wa, ai as int);
                    lemma_index_of(s, wb, j as int);
                    assert(wa != wb);
                    let x = choose|x: usize| #[trigger]
                        s[ai as int].wanted@.contains(x) && s[j as int].held@.contains(x);
                    assert(m[wa].1.contains(x));
                    assert(m[wb].0.contains(x));
                    assert(wait_edge(m, wa, wb));
                }
                out.push(j);
            }
            proof {
                let wa = s[ai as int].worker_id;
                lemma_index_of(s, wa, ai as int);
                if j != ai {
                    lemma_index_of(s, s[j as int].worker_id, j as int);
                }
                assert forall|j2: int|
                    0 <= j2 < j + 1 && wait_edge(
                        m,
                        wa,
                        (#[trigger] s[j2]).worker_id,
                    ) implies out@.contains(j2 as usize) by {
                    if j2 < j {
                        assert(out0.contains(j2 as usize));
                        let k = choose|k: int| 0 <= k < out0.len() && out0[k] == j2 as usize;
                        assert(out@[k] == j2 as usize);
                    } else {
                        // this very index: an edge to it means the two share
                        // a resource, so it was pushed
                        assert(j2 == j);
                        if j == ai {
                            assert(wait_edge(m, wa, s[j2].worker_id));
                            assert(wa != s[j2].worker_id);
                            assert(false);
                        } else {
                            let wb = s[j as int].worker_id;
                            let x = choose|x: usize| #[trigger]
                                m[wa].1.contains(x) && m[wb].0.contains(x);
                            assert(s[ai as int].wanted@.contains(x));
                            assert(s[j as int].held@.contains(x));
                            assert(hit);
                            assert(out@[out@.len() - 1] == j as usize);
                        }
                    }
                }
            }
            j = j + 1;
        }
        out
    }

    /// Position of the frame visiting node `b` on the traversal stack.
    fn find_node(st: &Vec<Frame>, b: usize) -> (pos: usize)
        requires
            exists|p: int| 0 <= p < st@.len() && (#[trigger] st@[p]).node == b,
        ensures
            pos < st@.len(),
            st@[pos as int].node == b,
    {
        let mut pos: usize = 0;
        while pos < st.len()
            invariant
                pos <= st@.len(),
                forall|k: int| 0 <= k < pos ==> (#[trigger] st@[k]).node != b,
                exists|p: int| 0 <= p < st@.len() && (#[trigger] st@[p]).node == b,
            decreases st@.len() - pos,
        {
            if st[pos].node == b {
                return pos;
            }
            pos = pos + 1;
        }
        proof {
            let p = choose|p: int| 0 <= p < st@.len() && (#[trigger] st@[p]).node == b;
        }
        assert(false);
        0
    }
}

/// A frame at position `p` is suspended on node `u`.
spec fn on_stack(st: Seq<Frame>, u: int) -> bool {
    exists|p: int| 0 <= p < st.len() && (#[trigger] st[p]).node == u
}

impl DeadlockDetector {
    /// Derives the wait-for graph from the registry and searches it for a
    /// cycle with an iterative three-colour depth-first traversal (unvisited,
    /// on the current path, finished). A reported cycle is read from the point
    /// where the path closes back on itself, so it names exactly the workers
    /// in the closed wait chain, never a superset. Nodes are taken in registry
    /// order, so detection is deterministic per snapshot.
    #[verifier::rlimit(100)]
    #[verifier::spinoff_prover]
    pub fn detect_deadlock(&self) -> (r: Option<Vec<usize>>)
        requires
            self.wf(),
        ensures
            r matches Some(c) ==> is_wait_cycle(self.state_map(), c@),
            r is None ==> forall|c: Seq<usize>| !is_wait_cycle(self.state_map(), c),
            no_conflicts(self.state_map()) ==> r is None,
            ordered_discipline(self.state_map()) ==> r is None,
    {
        let ghost s = self.entries@;
        let ghost m = self.state_map();
        let n = self.entries.len();
        let mut grey: Vec<bool> = Vec::new();
        let mut done: Vec<bool> = Vec::new();
        let mut v: usize = 0;
        while v < n
            invariant
                grey@.len() == v,
                done@.len() == v,
                v <= n,
                forall|k: int| 0 <= k < v ==> !grey@[k] && !done@[k],
            decreases n - v,
        {
            grey.push(false);
            done.push(false);
            v = v + 1;
        }
        // ghost record of the order in which nodes finish; when the traversal
        // reports no cycle, every successor finishes before its predecessor,
        // which is what makes the graph provably acyclic
        let ghost mut order: Seq<int> = Seq::empty();
        let mut root: usize = 0;
        while root < n
            invariant
                self.wf(),
                s == self.entries@,
                m == self.state_map(),
                n == s.len(),
                grey@.len() == n,
                done@.len() == n,
                root <= n,
                forall|k: int| 0 <= k < n ==> !grey@[k],
                forall|k: int| 0 <= k < root ==> done@[k],
                forall|u: int| 0 <= u < n ==> ((#[trigger] done@[u]) <==> order.contains(u)),
                order_wf(m, s, order),
            decreases n - root,
        {
            if !done[root] {
                let sr = self.successors(root);
                let mut stack: Vec<Frame> = Vec::new();
                stack.push(Frame { node: root, succs: sr, next: 0 });
                grey.set(root, true);
                proof {
                    assert forall|u: int| 0 <= u < n implies ((#[trigger] grey@[u]) <==> on_stack(
                        stack@,
                        u,
                    )) by {
                        if u == root {
                            assert(stack@[0].node == u);
                        } else if on_stack(stack@, u) {
                            let p = choose|p: int|
                                0 <= p < stack@.len() && (#[trigger] stack@[p]).node == u;
                        }
                    }
                    assert forall|i: int, w: int|
                        #![trigger wait_edge(m, s[stack@[i].node as int].worker_id, s[w].worker_id)]
                        0 <= i < stack@.len() && 0 <= w < n && wait_edge(
                            m,
                            s[stack@[i].node as int].worker_id,
                            s[w].worker_id,
                        ) implies stack@[i].succs@.contains(w as usize) by {
                        assert(stack@[i].succs == sr);
                        assert(wait_edge(m, s[root as int].worker_id, s[w].worker_id));
                    }
                }
                while stack.len() != 0
                    invariant
                        self.wf(),
                        s == self.entries@,
                        m == self.state_map(),
                        n == s.len(),
                        grey@.len() == n,
                        done@.len() == n,
                        forall|p: int| 0 <= p < stack@.len() ==> (#[trigger] stack@[p]).node < n,
                        forall|p: int|
                            0 <= p < stack@.len() ==> (#[trigger] stack@[p]).next
                                <= stack@[p].succs@.len(),
                        forall|p: int, k: int|
                            #![trigger stack@[p].succs@[k]]
                            0 <= p < stack@.len() && 0 <= k < stack@[p].succs@.len()
                                ==> stack@[p].succs@[k] < n && wait_edge(
                                m,
                                s[stack@[p].node as int].worker_id,
                                s[stack@[p].succs@[k] as int].worker_id,
                            ),
                        forall|p: int|
                            0 <= p < stack@.len() - 1 ==> wait_edge(
                                m,
                                s[(#[trigger] stack@[p]).node as int].worker_id,
                                s[stack@[p + 1].node as int].worker_id,
                            ),
                        forall|p: int, q: int|
                            #![trigger stack@[p].node, stack@[q].node]
                            0 <= p < q < stack@.len() ==> stack@[p].node != stack@[q].node,
                        forall|u: int|
                            0 <= u < n ==> ((#[trigger] grey@[u]) <==> on_stack(stack@, u)),
                        forall|u: int| 0 <= u < n ==> !((#[trigger] grey@[u]) && done@[u]),
                        forall|u: int|
                            0 <= u < n ==> ((#[trigger] done@[u]) <==> order.contains(u)),
                        order_wf(m, s, order),
                        root < n,
                        grey@[root as int] || done@[root as int],
                        forall|k: int| 0 <= k < root ==> done@[k],
                        forall|i: int, k: int|
                            #![trigger stack@[i].succs@[k]]
                            0 <= i < stack@.len() && 0 <= k < stack@[i].next
                                ==> done@[stack@[i].succs@[k] as int] || (i + 1 < stack@.len()
                                && stack@[i + 1].node == stack@[i].succs@[k]),
                        forall|i: int, w: int|
                            #![trigger wait_edge(m, s[stack@[i].node as int].worker_id, s[w].worker_id)]
                            0 <= i < stack@.len() && 0 <= w < n && wait_edge(
                                m,
                                s[stack@[i].node as int].worker_id,
                                s[w].worker_id,
                            ) ==> stack@[i].succs@.contains(w as usize),
                    decreases count_white(grey@, done@, n as int), rem_sum(stack@) + stack@.len(),
                {
                    let ghost st0 = stack@;
                    let ghost grey0 = grey@;
                    let ghost done0 = done@;
                    let ghost top = st0.len() - 1;
                    let fr = stack.pop().unwrap();
                    proof {
                        assert(fr == st0[top]);
                        assert(stack@ =~= st0.drop_last());
                    }
                    if fr.next < fr.succs.len() {
                        let b = fr.succs[fr.next];
                        let node = fr.node;
                        let nxt = fr.next;
                        proof {
                            assert(st0[top].succs@[nxt as int] == b);
                            assert(b < n && wait_edge(
                                m,
                                s[node as int].worker_id,
                                s[b as int].worker_id,
                            ));
                        }
                        stack.push(Frame { node, succs: fr.succs, next: nxt + 1 });
                        proof {
                            assert(stack@ =~= st0.update(top, stack@[top]));
                            assert(forall|p: int|
                                0 <= p < stack@.len() ==> (#[trigger] stack@[p]).node
                                    == st0[p].node && stack@[p].succs == st0[p].succs);
                            assert forall|i: int, w: int|
                                #![trigger wait_edge(m, s[stack@[i].node as int].worker_id, s[w].worker_id)]
                                0 <= i < stack@.len() && 0 <= w < n && wait_edge(
                                    m,
                                    s[stack@[i].node as int].worker_id,
                                    s[w].worker_id,
                                ) implies stack@[i].succs@.contains(w as usize) by {
                                let prev = st0[i];
                                assert(wait_edge(
                                    m,
                                    s[prev.node as int].worker_id,
                                    s[w].worker_id,
                                ));
                            }
                            assert forall|u: int| 0 <= u < n implies ((#[trigger] grey@[u])
                                <==> on_stack(stack@, u)) by {
                                if grey@[u] {
                                    let p = choose|p: int|
                                        0 <= p < st0.len() && (#[trigger] st0[p]).node == u;
                                    assert(stack@[p].node == u);
                                }
                                if on_stack(stack@, u) {
                                    let p = choose|p: int|
                                        0 <= p < stack@.len() && (#[trigger] stack@[p]).node == u;
                                    assert(st0[p].node == u);
                                }
                            }
                        }
                        if grey[b] {
                            proof {
                                assert(on_stack(stack@, b as int));
                            }
                            let pos = Self::find_node(&stack, b);
                            let ghost st1 = stack@;
                            let len = stack.len();
                            let mut cyc: Vec<usize> = Vec::new();
                            let mut q = pos;
                            while q < len
                                invariant
                                    st1 == stack@,
                                    len == st1.len(),
                                    pos <= q <= len,
                                    cyc@.len() == q - pos,
                                    n == s.len(),
                                    s == self.entries@,
                                    forall|p: int|
                                        0 <= p < st1.len() ==> (#[trigger] st1[p]).node < n,
                                    forall|k: int|
                                        0 <= k < cyc@.len() ==> cyc@[k] == s[st1[pos + k].node as int].worker_id,
                                decreases len - q,
                            {
                                let w = self.worker_at(stack[q].node);
                                cyc.push(w);
                                q = q + 1;
                            }
                            proof {
                                let c = cyc@;
                                assert(c.len() == len - pos >= 1);
                                assert forall|i: int| 0 <= i < c.len() - 1 implies #[trigger]
                                    wait_edge(m, c[i], c[i + 1]) by {
                                    assert(wait_edge(
                                        m,
                                        s[st1[pos + i].node as int].worker_id,
                                        s[st1[pos + i + 1].node as int].worker_id,
                                    ));
                                }
                                assert(st1[len - 1].node == node);
                                assert(st1[pos as int].node == b);
                                assert(c[c.len() - 1] == s[node as int].worker_id);
                                assert(c[0] == s[b as int].worker_id);
                                assert(wait_edge(m, c[c.len() - 1], c[0]));
                                assert forall|i: int, j: int|
                                    #![trigger c[i], c[j]]
                                    0 <= i < j < c.len() implies c[i] != c[j] by {
                                    let ni = st1[pos + i].node;
                                    let nj = st1[pos + j].node;
                                    assert(ni != nj);
                                    if (ni as int) < (nj as int) {
                                        assert(s[ni as int].worker_id != s[nj as int].worker_id);
                                    } else {
                                        assert(s[nj as int].worker_id != s[ni as int].worker_id);
                                    }
                                }
                                assert(is_wait_cycle(m, c));
                                if no_conflicts(m) {
                                    assert(wait_edge(m, c[c.len() - 1], c[0]));
                                    assert(false);
                                }
                                if ordered_discipline(m) {
                                    lemma_ordered_no_cycle(m, c);
                                }
                            }
                            return Some(cyc);
                        } else if !done[b] {
                            let sb = self.successors(b);
                            grey.set(b, true);
                            let ghost st2 = stack@;
                            stack.push(Frame { node: b, succs: sb, next: 0 });
                            proof {
                                assert(stack@.drop_last() =~= st2);
                                assert(forall|p: int|
                                    0 <= p < st2.len() ==> (#[trigger] stack@[p]).node
                                        == st2[p].node && stack@[p].succs == st2[p].succs
                                        && stack@[p].next == st2[p].next);
                                // the new node was white, so it was not on the stack
                                assert(!on_stack(st2, b as int));
                                assert forall|u: int| 0 <= u < n implies ((#[trigger] grey@[u])
                                    <==> on_stack(stack@, u)) by {
                                    if grey@[u] {
                                        if u == b {
                                            assert(stack@[stack@.len() - 1].node == u);
                                        } else {
                                            assert(grey0[u]);
                                            let p = choose|p: int|
                                                0 <= p < st0.len() && (#[trigger] st0[p]).node
                                                    == u;
                                            assert(stack@[p].node == u);
                                        }
                                    }
                                    if on_stack(stack@, u) {
                                        let p = choose|p: int|
                                            0 <= p < stack@.len() && (#[trigger] stack@[p]).node
                                                == u;
                                        if p == stack@.len() - 1 {
                                            assert(grey@[u]);
                                        } else {
                                            assert(st2[p].node == u);
                                            assert(grey0[u]);
                                        }
                                    }
                                }
                                // examined successors stay finished or sit directly above
                                assert forall|i: int, k: int|
                                    #![trigger stack@[i].succs@[k]]
                                    0 <= i < stack@.len() && 0 <= k < stack@[i].next implies done@[stack@[i].succs@[k] as int]
                                    || (i + 1 < stack@.len() && stack@[i + 1].node
                                    == stack@[i].succs@[k]) by {
                                    if i < stack@.len() - 1 {
                                        assert(stack@[i] == st2[i]);
                                        assert(st0[i].succs@[k] == stack@[i].succs@[k]);
                                        if i < stack@.len() - 2 {
                                            assert(stack@[i + 1].node == st0[i + 1].node);
                                        } else {
                                            if k < nxt {
                                                assert(done0[st0[i].succs@[k] as int] || (i + 1
                                                    < st0.len() && st0[i + 1].node
                                                    == st0[i].succs@[k]));
                                            } else {
                                                assert(stack@[i + 1].node == b);
                                            }
                                        }
                                    }
                                }
                                assert forall|i: int, w: int|
                                    #![trigger wait_edge(m, s[stack@[i].node as int].worker_id, s[w].worker_id)]
                                    0 <= i < stack@.len() && 0 <= w < n && wait_edge(
                                        m,
                                        s[stack@[i].node as int].worker_id,
                                        s[w].worker_id,
                                    ) implies stack@[i].succs@.contains(w as usize) by {
                                    if i < stack@.len() - 1 {
                                        assert(stack@[i] == st2[i]);
                                        let prev = st2[i];
                                        assert(wait_edge(
                                            m,
                                            s[prev.node as int].worker_id,
                                            s[w].worker_id,
                                        ));
                                    } else {
                                        assert(stack@[i].node == b);
                                        assert(stack@[i].succs == sb);
                                    }
                                }
                                // termination: one more node turned from white to on-path
                                lemma_count_white_update(
                                    grey0,
                                    done0,
                                    grey@,
                                    done@,
                                    b as int,
                                    n as int,
                                );
                                lemma_count_white_nonneg(grey@, done@, n as int);
                                lemma_rem_sum_nonneg(stack@);
                            }
                        } else {
                            proof {
                                assert(stack@.drop_last() =~= st0.drop_last());
                                assert(rem_sum(stack@) == rem_sum(st0) - 1);
                                lemma_rem_sum_nonneg(stack@);
                                // the newly examined successor is itself finished
                                assert forall|i: int, k: int|
                                    #![trigger stack@[i].succs@[k]]
                                    0 <= i < stack@.len() && 0 <= k < stack@[i].next implies done@[stack@[i].succs@[k] as int]
                                    || (i + 1 < stack@.len() && stack@[i + 1].node
                                    == stack@[i].succs@[k]) by {
                                    assert(st0[i].succs@[k] == stack@[i].succs@[k]);
                                    if i < stack@.len() - 1 {
                                        assert(stack@[i + 1].node == st0[i + 1].node);
                                    } else {
                                        if k < nxt {
                                            assert(done0[st0[i].succs@[k] as int] || (i + 1
                                                < st0.len() && st0[i + 1].node
                                                == st0[i].succs@[k]));
                                        } else {
                                            assert(stack@[i].succs@[k] == b);
                                        }
                                    }
                                }
                            }
                        }
                    } else {
                        grey.set(fr.node, false);
                        done.set(fr.node, true);
                        proof {
                            let v = fr.node as int;
                            let ghost order0 = order;
                            assert(st0[top].node == fr.node);
                            assert(grey0[v]);
                            assert(!done0[v]);
                            assert(!order0.contains(v));
                            order = order.push(v);
                            assert(order[order.len() - 1] == v);
                            assert(forall|q: int| 0 <= q < order0.len() ==> order[q] == order0[q]);
                            assert forall|u: int| 0 <= u < n implies ((#[trigger] grey@[u])
                                <==> on_stack(stack@, u)) by {
                                if grey@[u] {
                                    assert(u != fr.node);
                                    assert(grey0[u]);
                                    let p = choose|p: int|
                                        0 <= p < st0.len() && (#[trigger] st0[p]).node == u;
                                    assert(p < top);
                                    assert(stack@[p].node == u);
                                }
                                if on_stack(stack@, u) {
                                    let p = choose|p: int|
                                        0 <= p < stack@.len() && (#[trigger] stack@[p]).node == u;
                                    assert(st0[p].node == u);
                                    assert(grey0[u]);
                                    assert(u != fr.node);
                                }
                            }
                            // the finished node joins the order; everyone else's
                            // membership is untouched
                            assert forall|u: int| 0 <= u < n implies ((#[trigger] done@[u])
                                <==> order.contains(u)) by {
                                if u == v {
                                    assert(order.contains(v));
                                } else {
                                    if done0[u] {
                                        let q = choose|q: int|
                                            0 <= q < order0.len() && order0[q] == u;
                                        assert(order[q] == u);
                                        assert(order.contains(u));
                                    }
                                    if order.contains(u) {
                                        let q = choose|q: int|
                                            0 <= q < order.len() && order[q] == u;
                                        assert(q < order0.len());
                                        assert(order0[q] == u);
                                        assert(order0.contains(u));
                                    }
                                }
                            }
                            assert forall|p: int, q: int|
                                #![trigger order[p], order[q]]
                                0 <= p < q < order.len() implies order[p] != order[q] by {
                                if q == order.len() - 1 {
                                    if order0[p] == v {
                                        assert(order0.contains(v));
                                    }
                                } else {
                                    assert(order0[p] != order0[q]);
                                }
                            }
                            // every wait-for successor of the finished node had
                            // already finished: its whole successor list was
                            // examined, and nothing sits above the top frame
                            assert forall|p: int, w: int|
                                #![trigger wait_edge(m, s[order[p]].worker_id, s[w].worker_id)]
                                0 <= p < order.len() && 0 <= w < s.len() && wait_edge(
                                    m,
                                    s[order[p]].worker_id,
                                    s[w].worker_id,
                                ) implies exists|q: int| 0 <= q < p && order[q] == w by {
                                if p < order.len() - 1 {
                                    assert(order[p] == order0[p]);
                                    assert(wait_edge(m, s[order0[p]].worker_id, s[w].worker_id));
                                    let q = choose|q: int| 0 <= q < p && order0[q] == w;
                                    assert(order[q] == w);
                                } else {
                                    assert(order[p] == v);
                                    let popped = st0[top];
                                    assert(wait_edge(
                                        m,
                                        s[popped.node as int].worker_id,
                                        s[w].worker_id,
                                    ));
                                    assert(st0[top].succs@.contains(w as usize));
                                    let k = choose|k: int|
                                        0 <= k < st0[top].succs@.len() && st0[top].succs@[k]
                                            == w as usize;
                                    assert(k < st0[top].next);
                                    assert(st0[top].succs@[k] == w as usize);
                                    assert(done0[st0[top].succs@[k] as int] || (top + 1
                                        < st0.len() && st0[top + 1].node == st0[top].succs@[k]));
                                    assert(done0[w]);
                                    assert(order0.contains(w));
                                    let q = choose|q: int|
                                        0 <= q < order0.len() && order0[q] == w;
                                    assert(order[q] == w && q < p);
                                }
                            }
                            // frames that remain: their last examined successor was
                            // the popped node, which is finished now
                            assert forall|i: int, k: int|
                                #![trigger stack@[i].succs@[k]]
                                0 <= i < stack@.len() && 0 <= k < stack@[i].next implies done@[stack@[i].succs@[k] as int]
                                || (i + 1 < stack@.len() && stack@[i + 1].node
                                == stack@[i].succs@[k]) by {
                                assert(stack@[i] == st0[i]);
                                assert(st0[i].succs@[k] == stack@[i].succs@[k]);
                                assert(done0[st0[i].succs@[k] as int] || (i + 1 < st0.len()
                                    && st0[i + 1].node == st0[i].succs@[k]));
                                if !done0[st0[i].succs@[k] as int] {
                                    if i + 1 < stack@.len() {
                                        assert(stack@[i + 1].node == st0[i + 1].node);
                                    } else {
                                        assert(st0[i + 1].node == fr.node);
                                        assert(done@[st0[i].succs@[k] as int]);
                                    }
                                }
                            }
                            assert forall|i: int, w: int|
                                #![trigger wait_edge(m, s[stack@[i].node as int].worker_id, s[w].worker_id)]
                                0 <= i < stack@.len() && 0 <= w < n && wait_edge(
                                    m,
                                    s[stack@[i].node as int].worker_id,
                                    s[w].worker_id,
                                ) implies stack@[i].succs@.contains(w as usize) by {
                                let prev = st0[i];
                                assert(stack@[i] == prev);
                                assert(wait_edge(m, s[prev.node as int].worker_id, s[w].worker_id));
                            }
                            // termination: the node leaves the path and is finished,
                            // so the white count is unchanged and a frame is gone
                            lemma_count_white_update(
                                grey0,
                                done0,
                                grey@,
                                done@,
                                fr.node as int,
                                n as int,
                            );
                            assert(fr.next >= fr.succs@.len());
                            assert(rem_sum(st0) == rem_sum(stack@) + (st0.last().succs@.len()
                                - st0.last().next));
                            lemma_rem_sum_nonneg(stack@);
                        }
                    }
                }
                proof {
                    assert forall|k: int| 0 <= k < n implies !grey@[k] by {
                        if grey@[k] {
                            assert(on_stack(stack@, k));
                        }
                    }
                }
            }
            root = root + 1;
        }
        proof {
            // every node finished, and every edge leads to an earlier finisher:
            // the wait-for graph admits no cycle at all
            assert forall|v: int| 0 <= v < s.len() implies order.contains(v) by {
                assert(done@[v]);
            }
            assert forall|c: Seq<usize>| !is_wait_cycle(m, c) by {
                lemma_order_acyclic(m, s, order, c);
            }
        }
        None
    }
}

/// Updating a worker's entry twice with the same state is the same as
/// updating it once: the registry entry ends up identical either way.
pub proof fn lemma_update_idempotent(
    m: Map<usize, (Set<usize>, Set<usize>)>,
    w: usize,
    held: Set<usize>,
    wanted: Set<usize>,
)
    ensures
        m.insert(w, (held, wanted)).insert(w, (held, wanted)) == m.insert(w, (held, wanted)),
{
    assert(m.insert(w, (held, wanted)).insert(w, (held, wanted)) =~= m.insert(w, (held, wanted)));
}

} // verus!
