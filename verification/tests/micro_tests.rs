use soy_bot::abilities::{worker_abilities, Race};
use soy_bot::geometry::{closer_than, further_than, Point};
use soy_bot::micro::{execute_micro, Command, NodeObs, UnitOrder, WorkerObs};
use soy_bot::table::{BindingTable, Expansion};

const GATHER: u64 = 295;
const RETURN: u64 = 296;

fn pt(x: i64, y: i64) -> Point {
    Point { x, y }
}

fn worker(tag: u64, x: i64, y: i64, order: UnitOrder, carrying: bool) -> WorkerObs {
    WorkerObs {
        tag,
        pos: pt(x, y),
        radius: 50,
        step: 10,
        carrying,
        order,
    }
}

fn node(tag: u64, x: i64, y: i64, radius: i64) -> NodeObs {
    NodeObs {
        tag,
        pos: pt(x, y),
        radius,
    }
}

/// A table with workers 1 and 2 bound to resource 50 under depot 100.
fn bound_table(workers: &[u64]) -> BindingTable {
    let exps = vec![Expansion {
        depot: Some(100),
        resources: vec![50],
    }];
    let mut t = BindingTable::new();
    for &w in workers {
        t.on_worker_created(w);
    }
    t.on_depot_complete(100, &exps);
    t.assign_roles(&exps);
    t
}

#[test]
fn distance_comparisons_are_strict() {
    // (0,0) to (3,4): distance exactly 5
    let a = pt(0, 0);
    let b = pt(3, 4);
    assert!(!closer_than(&a, &b, 5));
    assert!(closer_than(&a, &b, 6));
    assert!(!further_than(&a, &b, 5));
    assert!(further_than(&a, &b, 4));
}

#[test]
fn ability_pairs_per_race() {
    assert_eq!(worker_abilities(Race::Terran), (295, 296));
    assert_eq!(worker_abilities(Race::Zerg), (1183, 1184));
    assert_eq!(worker_abilities(Race::Protoss), (298, 299));
}

fn run_one(u: WorkerObs) -> Vec<(u64, Command)> {
    let t = bound_table(&[u.tag]);
    let units = vec![u];
    let resources = vec![node(50, 1000, 0, 100)];
    let depots = vec![node(100, -1000, 0, 200)];
    execute_micro(&t, &units, &resources, &depots, GATHER, RETURN)
}

#[test]
fn idle_worker_gets_plain_gather() {
    let out = run_one(worker(1, 0, 0, UnitOrder::Other, false));
    assert_eq!(out, vec![(1, Command::Gather { resource: 50 })]);
}

#[test]
fn idle_carrying_worker_returns_cargo() {
    let out = run_one(worker(1, 0, 0, UnitOrder::Other, true));
    assert_eq!(out, vec![(1, Command::ReturnCargo)]);
}

#[test]
fn unbound_worker_gets_no_command() {
    let t = BindingTable::new();
    let units = vec![worker(1, 0, 0, UnitOrder::Other, false)];
    let resources = vec![node(50, 1000, 0, 100)];
    let depots = vec![node(100, -1000, 0, 200)];
    let out = execute_micro(&t, &units, &resources, &depots, GATHER, RETURN);
    assert!(out.is_empty());
}

#[test]
fn missing_resource_observation_skips_the_worker() {
    let t = bound_table(&[1]);
    let units = vec![worker(1, 0, 0, UnitOrder::Other, false)];
    let resources: Vec<NodeObs> = Vec::new();
    let depots = vec![node(100, -1000, 0, 200)];
    let out = execute_micro(&t, &units, &resources, &depots, GATHER, RETURN);
    assert!(out.is_empty());
}

#[test]
fn approach_far_from_resource_keeps_moving() {
    // moving toward a point inside the resource band, but still far away
    let u = worker(1, 0, 0, UnitOrder::MoveTo(pt(990, 0)), false);
    let out = run_one(u);
    assert!(out.is_empty());
}

#[test]
fn approach_within_contact_band_starts_extraction() {
    // resource at x=1000, radius 100; band = own 50 + resource 100 + step 10
    let u = worker(1, 850, 0, UnitOrder::MoveTo(pt(990, 0)), false);
    let out = run_one(u);
    assert_eq!(out, vec![(1, Command::UseOn { target: 50 })]);
}

#[test]
fn approach_toward_depot_starts_deposit() {
    // depot at x=-1000, radius 200; move target lands within its band
    let u = worker(1, -780, 0, UnitOrder::MoveTo(pt(-990, 0)), true);
    let out = run_one(u);
    assert_eq!(out, vec![(1, Command::UseOn { target: 100 })]);
}

#[test]
fn move_toward_nothing_falls_back_to_gather() {
    let u = worker(1, 0, 0, UnitOrder::MoveTo(pt(0, 5000)), false);
    let out = run_one(u);
    assert_eq!(out, vec![(1, Command::Gather { resource: 50 })]);
}

// Steady-state idempotence, concretely: a worker extracting at its
// resource, within the contact band, with no teammate near, receives no
// command.
#[test]
fn extracting_at_rest_gets_no_command() {
    let u = worker(
        1,
        900,
        0,
        UnitOrder::TargetedAbility {
            ability: GATHER,
            target: 50,
        },
        false,
    );
    let out = run_one(u);
    assert!(out.is_empty());
}

#[test]
fn extracting_far_away_is_repositioned() {
    let u = worker(
        1,
        0,
        0,
        UnitOrder::TargetedAbility {
            ability: GATHER,
            target: 50,
        },
        false,
    );
    let out = run_one(u);
    assert_eq!(
        out,
        vec![(
            1,
            Command::MoveBesideResource {
                resource: 50,
                depot: 100
            }
        )]
    );
}

#[test]
fn returning_far_away_is_repositioned() {
    let u = worker(
        1,
        0,
        0,
        UnitOrder::TargetedAbility {
            ability: RETURN,
            target: 100,
        },
        true,
    );
    let out = run_one(u);
    assert_eq!(out, vec![(1, Command::MoveBesideDepot { depot: 100 })]);
}

#[test]
fn foreign_ability_falls_back_to_recovery() {
    let u = worker(
        1,
        0,
        0,
        UnitOrder::TargetedAbility {
            ability: 9999,
            target: 50,
        },
        false,
    );
    let out = run_one(u);
    assert_eq!(out, vec![(1, Command::Gather { resource: 50 })]);
}

// The commanded mark is visible to later workers in the same tick: the
// first worker's command suppresses the collision that would otherwise
// hold the second one in place.
#[test]
fn commanded_mark_feeds_later_collision_tests() {
    let t = bound_table(&[1, 2]);
    // worker 1: moving toward the resource band, not yet at contact, but
    // colliding with worker 2 right beside it: commanded to extract now.
    let u1 = worker(1, 700, 0, UnitOrder::MoveTo(pt(990, 0)), false);
    // worker 2: extracting but far from the resource; its only teammate
    // is worker 1, already marked by the time it is examined.
    let u2 = worker(
        2,
        700,
        30,
        UnitOrder::TargetedAbility {
            ability: GATHER,
            target: 50,
        },
        false,
    );
    let units = vec![u1, u2];
    let resources = vec![node(50, 1000, 0, 100)];
    let depots = vec![node(100, -1000, 0, 200)];
    let out = execute_micro(&t, &units, &resources, &depots, GATHER, RETURN);
    assert_eq!(
        out,
        vec![
            (1, Command::UseOn { target: 50 }),
            (
                2,
                Command::MoveBesideResource {
                    resource: 50,
                    depot: 100
                }
            ),
        ]
    );
}

// Two colliding extractors with nobody marked both stay put: collision
// suppresses the repositioning move.
#[test]
fn colliding_extractors_hold_position() {
    let t = bound_table(&[1, 2]);
    let order = UnitOrder::TargetedAbility {
        ability: GATHER,
        target: 50,
    };
    let units = vec![worker(1, 0, 0, order, false), worker(2, 30, 0, order, false)];
    let resources = vec![node(50, 1000, 0, 100)];
    let depots = vec![node(100, -1000, 0, 200)];
    let out = execute_micro(&t, &units, &resources, &depots, GATHER, RETURN);
    assert!(out.is_empty());
}

// At-most-one-command, concretely: every worker tag appears at most once
// in a tick's output.
#[test]
fn each_worker_gets_at_most_one_command() {
    let t = bound_table(&[1, 2]);
    let units = vec![
        worker(1, 0, 0, UnitOrder::Other, false),
        worker(2, 10, 0, UnitOrder::Other, true),
    ];
    let resources = vec![node(50, 1000, 0, 100)];
    let depots = vec![node(100, -1000, 0, 200)];
    let out = execute_micro(&t, &units, &resources, &depots, GATHER, RETURN);
    assert_eq!(out.len(), 2);
    assert_ne!(out[0].0, out[1].0);
    assert_eq!(out[0], (1, Command::Gather { resource: 50 }));
    assert_eq!(out[1], (2, Command::ReturnCargo));
}
