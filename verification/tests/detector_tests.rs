use deadlock_guard::detector::DeadlockDetector;

fn sorted(mut v: Vec<usize>) -> Vec<usize> {
    v.sort();
    v
}

#[test]
fn empty_registry_has_no_cycle() {
    let d = DeadlockDetector::new();
    assert_eq!(d.detect_deadlock(), None);
}

#[test]
fn two_worker_cycle_is_reported_exactly() {
    // {A: held={1}, wanted={2}}, {B: held={2}, wanted={1}} must yield a cycle
    // containing exactly A and B.
    let mut d = DeadlockDetector::new();
    d.update_state(1, vec![1], vec![2]);
    d.update_state(2, vec![2], vec![1]);
    let cycle = d.detect_deadlock().expect("a two-worker cycle must be found");
    assert_eq!(sorted(cycle), vec![1, 2]);
}

#[test]
fn no_overlap_means_no_cycle() {
    // No worker's wanted set intersects another's held set.
    let mut d = DeadlockDetector::new();
    d.update_state(1, vec![1], vec![3]);
    d.update_state(2, vec![2], vec![]);
    d.update_state(3, vec![], vec![4]);
    assert_eq!(d.detect_deadlock(), None);
}

#[test]
fn waiting_without_cycle_is_not_deadlock() {
    // 1 -> 2 -> 3 is a chain, not a cycle.
    let mut d = DeadlockDetector::new();
    d.update_state(1, vec![], vec![10]);
    d.update_state(2, vec![10], vec![20]);
    d.update_state(3, vec![20], vec![]);
    assert_eq!(d.detect_deadlock(), None);
}

#[test]
fn three_node_cycle_in_larger_graph_is_exact() {
    // A->B->C->A embedded in a larger acyclic graph; the report must name
    // exactly {A, B, C}, never a superset or subset.
    let mut d = DeadlockDetector::new();
    d.update_state(40, vec![4], vec![1]); // D -> A, acyclic appendage
    d.update_state(50, vec![5], vec![4]); // E -> D, acyclic appendage
    d.update_state(10, vec![1], vec![2]); // A -> B
    d.update_state(20, vec![2], vec![3]); // B -> C
    d.update_state(30, vec![3], vec![1]); // C -> A
    let cycle = d.detect_deadlock().expect("the embedded cycle must be found");
    assert_eq!(sorted(cycle), vec![10, 20, 30]);
}

#[test]
fn cycle_report_is_a_rotation_of_the_chain() {
    let mut d = DeadlockDetector::new();
    d.update_state(10, vec![1], vec![2]);
    d.update_state(20, vec![2], vec![3]);
    d.update_state(30, vec![3], vec![1]);
    let cycle = d.detect_deadlock().expect("cycle");
    assert_eq!(cycle.len(), 3);
    // consecutive members must really wait on each other: 10 waits on 20,
    // 20 on 30, 30 on 10, in some rotation
    let start = cycle.iter().position(|&w| w == 10).expect("10 in cycle");
    assert_eq!(cycle[start % 3], 10);
    assert_eq!(cycle[(start + 1) % 3], 20);
    assert_eq!(cycle[(start + 2) % 3], 30);
}

#[test]
fn ordered_publications_never_form_a_cycle() {
    // Workers that acquired in the global id order only ever wait for
    // resources above everything they hold; such a snapshot is acyclic.
    let mut d = DeadlockDetector::new();
    d.update_state(1, vec![1], vec![2, 3]);
    d.update_state(2, vec![2], vec![3]);
    d.update_state(3, vec![3], vec![]);
    d.update_state(4, vec![], vec![1]);
    assert_eq!(d.detect_deadlock(), None);
}

#[test]
fn wanting_a_resource_you_hold_is_not_a_cycle() {
    // An edge needs two distinct workers.
    let mut d = DeadlockDetector::new();
    d.update_state(1, vec![1], vec![1]);
    assert_eq!(d.detect_deadlock(), None);
}

#[test]
fn update_replaces_the_entry_wholesale() {
    let mut d = DeadlockDetector::new();
    d.update_state(7, vec![1, 2], vec![3]);
    d.update_state(7, vec![4], vec![]);
    assert_eq!(d.entries.len(), 1);
    assert_eq!(d.entries[0].worker_id, 7);
    assert_eq!(d.entries[0].held, vec![4]);
    assert_eq!(d.entries[0].wanted, Vec::<usize>::new());
}

#[test]
fn clearing_twice_equals_clearing_once() {
    // Idempotence: a second update(w, {}, {}) leaves the entry identical.
    let mut d = DeadlockDetector::new();
    d.update_state(3, vec![9], vec![8]);
    d.update_state(3, vec![], vec![]);
    let held_once = d.entries[0].held.clone();
    let wanted_once = d.entries[0].wanted.clone();
    let count_once = d.entries.len();
    d.update_state(3, vec![], vec![]);
    assert_eq!(d.entries.len(), count_once);
    assert_eq!(d.entries[0].worker_id, 3);
    assert_eq!(d.entries[0].held, held_once);
    assert_eq!(d.entries[0].wanted, wanted_once);
}
