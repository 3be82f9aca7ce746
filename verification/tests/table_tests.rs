use soy_bot::table::{Alliance, BindingTable, DestroyOutcome, Expansion};

fn exp(depot: Option<u64>, resources: Vec<u64>) -> Expansion {
    Expansion { depot, resources }
}

fn table_with_depot(free: Vec<u64>) -> (BindingTable, Vec<Expansion>) {
    let exps = vec![exp(Some(100), vec![50])];
    let mut t = BindingTable::new();
    for w in free {
        assert!(t.on_worker_created(w));
    }
    assert_eq!(t.on_depot_complete(100, &exps), Some(0));
    (t, exps)
}

#[test]
fn worker_created_joins_free_set() {
    let mut t = BindingTable::new();
    assert!(t.on_worker_created(7));
    assert_eq!(t.free_workers, vec![7]);
}

#[test]
fn worker_created_twice_is_dropped() {
    let mut t = BindingTable::new();
    assert!(t.on_worker_created(7));
    assert!(!t.on_worker_created(7));
    assert_eq!(t.free_workers, vec![7]);
}

#[test]
fn depot_complete_records_expansion_index() {
    let exps = vec![exp(None, vec![1]), exp(Some(100), vec![2])];
    let mut t = BindingTable::new();
    assert_eq!(t.on_depot_complete(100, &exps), Some(1));
    assert_eq!(t.depots.len(), 1);
    assert_eq!(t.depots[0].depot, 100);
    assert_eq!(t.depots[0].expansion, 1);
}

#[test]
fn depot_complete_without_matching_expansion() {
    let exps = vec![exp(None, vec![1])];
    let mut t = BindingTable::new();
    assert_eq!(t.on_depot_complete(100, &exps), None);
    assert!(t.depots.is_empty());
}

#[test]
fn depot_complete_overwrites_existing_record() {
    let exps = vec![exp(Some(100), vec![1]), exp(Some(100), vec![2])];
    let mut t = BindingTable::new();
    assert_eq!(t.on_depot_complete(100, &exps), Some(0));
    assert_eq!(t.on_depot_complete(100, &exps), Some(0));
    assert_eq!(t.depots.len(), 1);
}

// Scenario: two free workers, one expansion with one resource at zero
// assigned: both get bound, the free set drains, the resource is at
// capacity.
#[test]
fn allocator_binds_two_workers_to_fresh_resource() {
    let (mut t, exps) = table_with_depot(vec![1, 2]);
    assert!(t.allocator_ready(&exps));
    t.assign_roles(&exps);
    assert!(t.free_workers.is_empty());
    assert_eq!(t.bindings.len(), 2);
    assert_eq!(t.binding_of(1), Some((50, 100)));
    assert_eq!(t.binding_of(2), Some((50, 100)));
    assert_eq!(t.count_assigned(50), 2);
}

// Scenario: a third free worker with the resource already at capacity
// stays in the free set.
#[test]
fn allocator_leaves_third_worker_free_at_capacity() {
    let (mut t, exps) = table_with_depot(vec![1, 2]);
    t.assign_roles(&exps);
    assert!(t.on_worker_created(3));
    t.assign_roles(&exps);
    assert_eq!(t.free_workers, vec![3]);
    assert_eq!(t.count_assigned(50), 2);
    assert_eq!(t.binding_of(3), None);
}

#[test]
fn allocator_tops_up_a_half_filled_resource() {
    let (mut t, exps) = table_with_depot(vec![1]);
    t.assign_roles(&exps);
    assert_eq!(t.count_assigned(50), 1);
    assert!(t.on_worker_created(2));
    assert!(t.on_worker_created(3));
    t.assign_roles(&exps);
    assert_eq!(t.count_assigned(50), 2);
    assert_eq!(t.free_workers, vec![3]);
}

#[test]
fn allocator_order_is_deterministic() {
    let exps = vec![exp(Some(100), vec![50, 51]), exp(Some(200), vec![60])];
    let mut t = BindingTable::new();
    for w in [1, 2, 3, 4, 5] {
        t.on_worker_created(w);
    }
    assert_eq!(t.on_depot_complete(100, &exps), Some(0));
    assert_eq!(t.on_depot_complete(200, &exps), Some(1));
    assert!(t.allocator_ready(&exps));
    t.assign_roles(&exps);
    // Slots come depot-record by depot-record, resource by resource, two
    // per fresh resource; workers in arrival order.
    let got: Vec<(u64, u64, u64)> = t
        .bindings
        .iter()
        .map(|b| (b.worker, b.resource, b.depot))
        .collect();
    assert_eq!(
        got,
        vec![
            (1, 50, 100),
            (2, 50, 100),
            (3, 51, 100),
            (4, 51, 100),
            (5, 60, 200),
        ]
    );
    assert!(t.free_workers.is_empty());
}

#[test]
fn allocator_ready_rejects_duplicate_resource_listing() {
    let exps = vec![exp(Some(100), vec![50]), exp(Some(200), vec![50])];
    let mut t = BindingTable::new();
    assert_eq!(t.on_depot_complete(100, &exps), Some(0));
    assert_eq!(t.on_depot_complete(200, &exps), Some(1));
    assert!(!t.allocator_ready(&exps));
}

#[test]
fn allocator_ready_rejects_stale_record() {
    let exps = vec![exp(Some(100), vec![50])];
    let mut t = BindingTable::new();
    assert_eq!(t.on_depot_complete(100, &exps), Some(0));
    let fewer: Vec<Expansion> = Vec::new();
    assert!(!t.allocator_ready(&fewer));
}

// Scenario: a bound worker is destroyed: its binding and its membership
// at its resource disappear.
#[test]
fn bound_worker_destroyed_is_unbound() {
    let (mut t, exps) = table_with_depot(vec![1, 2]);
    t.assign_roles(&exps);
    let o = t.on_unit_destroyed(1, Alliance::Own, &exps);
    assert_eq!(o, DestroyOutcome::WorkerUnbound);
    assert_eq!(t.binding_of(1), None);
    assert_eq!(t.count_assigned(50), 1);
    // the dead worker does not return to the free set
    assert!(t.free_workers.is_empty());
}

// Scenario: a resource with two bound workers is depleted (neutral-side
// destroy): both workers return to the free set, the resource keeps no
// binding.
#[test]
fn depleted_resource_releases_both_workers() {
    let (mut t, exps) = table_with_depot(vec![1, 2]);
    t.assign_roles(&exps);
    let o = t.on_unit_destroyed(50, Alliance::Neutral, &exps);
    assert_eq!(o, DestroyOutcome::ResourceReleased);
    assert_eq!(t.free_workers, vec![1, 2]);
    assert!(t.bindings.is_empty());
    assert_eq!(t.count_assigned(50), 0);
}

#[test]
fn release_is_idempotent_on_absent_resource() {
    let (mut t, exps) = table_with_depot(vec![1]);
    t.assign_roles(&exps);
    let before = t.bindings.clone();
    t.release_resource(999);
    assert_eq!(t.bindings, before);
    assert!(t.free_workers.is_empty());
    // releasing the same resource twice: the second pass moves nothing
    t.release_resource(50);
    assert_eq!(t.free_workers, vec![1]);
    t.release_resource(50);
    assert_eq!(t.free_workers, vec![1]);
}

// Destroying the depot of an expansion releases every resource listed
// under that expansion.
#[test]
fn depot_destroyed_cascades_over_expansion() {
    let exps = vec![exp(Some(100), vec![50, 51])];
    let mut t = BindingTable::new();
    for w in [1, 2, 3, 4] {
        t.on_worker_created(w);
    }
    assert_eq!(t.on_depot_complete(100, &exps), Some(0));
    t.assign_roles(&exps);
    assert_eq!(t.count_assigned(50), 2);
    assert_eq!(t.count_assigned(51), 2);
    let o = t.on_unit_destroyed(100, Alliance::Own, &exps);
    assert_eq!(o, DestroyOutcome::Cascade);
    assert!(t.bindings.is_empty());
    assert_eq!(t.free_workers, vec![1, 2, 3, 4]);
    assert!(t.depots.is_empty());
}

#[test]
fn free_worker_destroyed_leaves_free_set() {
    let mut t = BindingTable::new();
    t.on_worker_created(1);
    t.on_worker_created(2);
    let exps: Vec<Expansion> = Vec::new();
    let o = t.on_unit_destroyed(1, Alliance::Own, &exps);
    assert_eq!(o, DestroyOutcome::FreeWorkerRemoved);
    assert_eq!(t.free_workers, vec![2]);
}

#[test]
fn unknown_own_destruction_is_reported() {
    let mut t = BindingTable::new();
    let exps: Vec<Expansion> = Vec::new();
    let o = t.on_unit_destroyed(12345, Alliance::Own, &exps);
    assert_eq!(o, DestroyOutcome::Unknown);
}

#[test]
fn enemy_destruction_is_ignored() {
    let mut t = BindingTable::new();
    t.on_worker_created(1);
    let exps: Vec<Expansion> = Vec::new();
    let o = t.on_unit_destroyed(1, Alliance::Other, &exps);
    assert_eq!(o, DestroyOutcome::Ignored);
    assert_eq!(t.free_workers, vec![1]);
}

// The capacity and partition laws, checked on a concrete run: after any
// mix of operations no resource holds more than two workers and no worker
// is both free and bound.
#[test]
fn capacity_and_partition_hold_through_a_tick() {
    let exps = vec![exp(Some(100), vec![50, 51])];
    let mut t = BindingTable::new();
    for w in 1..=6u64 {
        t.on_worker_created(w);
    }
    assert_eq!(t.on_depot_complete(100, &exps), Some(0));
    t.assign_roles(&exps);
    assert_eq!(t.count_assigned(50), 2);
    assert_eq!(t.count_assigned(51), 2);
    for b in &t.bindings {
        assert!(!t.free_workers.contains(&b.worker));
    }
    t.on_unit_destroyed(50, Alliance::Neutral, &exps);
    assert_eq!(t.count_assigned(50), 0);
    t.assign_roles(&exps);
    assert_eq!(t.count_assigned(50), 2);
    for b in &t.bindings {
        assert!(!t.free_workers.contains(&b.worker));
    }
}
