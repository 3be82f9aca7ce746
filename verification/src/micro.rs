//! Per-unit motion/state inference. Once per tick, every bound worker's
//! state is re-derived from its currently observed order — nothing is
//! cached across ticks — and at most one command per worker comes out.
//!
//! Workers are processed strictly in snapshot order; a worker that
//! receives a command is marked at once, and later workers' collision
//! tests see the mark. That sequential visibility is what breaks
//! simultaneous-convergence deadlocks at a shared contact point.

use vstd::prelude::*;
use crate::geometry::{
    closer_than, further_than, pt_ok, spec_closer_than, spec_further_than, Point, COORD_LIMIT,
};
use crate::table::{bound_pair_of, Binding, BindingTable};

verus! {

/// A resource node or depot as observed this tick.
#[derive(Clone, Copy, PartialEq, Eq, Structural, Debug)]
pub struct NodeObs {
    pub tag: u64,
    pub pos: Point,
    pub radius: i64,
}

/// A worker's currently executing order, as observed this tick.
#[derive(Clone, Copy, PartialEq, Eq, Structural, Debug)]
pub enum UnitOrder {
    /// A generic move toward a position.
    MoveTo(Point),
    /// An ability aimed at a unit (gather or return, or anything else).
    TargetedAbility { ability: u64, target: u64 },
    /// Idle, attacking, or anything unrecognized.
    Other,
}

/// A worker as observed this tick.
#[derive(Clone, Copy, PartialEq, Eq, Structural, Debug)]
pub struct WorkerObs {
    pub tag: u64,
    pub pos: Point,
    pub radius: i64,
    pub step: i64,
    pub carrying: bool,
    pub order: UnitOrder,
}

/// At most one of these per worker per tick goes back to the host.
#[derive(Clone, Copy, PartialEq, Eq, Structural, Debug)]
pub enum Command {
    /// The smart (context) command on a target: starts extraction at a
    /// resource, deposit at a depot.
    UseOn { target: u64 },
    /// Move to the point on the resource offset toward the depot by the
    /// resource's radius (pre-positions along the direct line).
    MoveBesideResource { resource: u64, depot: u64 },
    /// Move to the point on the depot offset toward the worker by the
    /// depot's radius.
    MoveBesideDepot { depot: u64 },
    /// The plain gather command on the bound resource.
    Gather { resource: u64 },
    /// Deposit the carried payload at the nearest depot.
    ReturnCargo,
}

pub open spec fn node_obs_ok(n: NodeObs) -> bool {
    &&& pt_ok(n.pos)
    &&& 0 <= n.radius <= COORD_LIMIT
}

pub open spec fn worker_obs_ok(u: WorkerObs) -> bool {
    &&& pt_ok(u.pos)
    &&& 0 <= u.radius <= COORD_LIMIT
    &&& 0 <= u.step <= COORD_LIMIT
    &&& match u.order {
        UnitOrder::MoveTo(p) => pt_ok(p),
        _ => true,
    }
}

pub open spec fn tags_nodup(units: Seq<WorkerObs>) -> bool {
    forall|i: int, j: int| 0 <= i < j < units.len() ==> units[i].tag != units[j].tag
}

/// The first observed node carrying `t`, if any.
pub open spec fn find_node(ns: Seq<NodeObs>, t: u64) -> Option<NodeObs>
    decreases ns.len(),
{
    if ns.len() == 0 {
        None
    } else if ns[0].tag == t {
        Some(ns[0])
    } else {
        find_node(ns.drop_first(), t)
    }
}

/// Worker `w` is bound to resource `r`.
pub open spec fn teammate_of(bound: Seq<Binding>, w: u64, r: u64) -> bool {
    match bound_pair_of(bound, w) {
        Some(p) => p.0 == r,
        None => false,
    }
}

/// How near another worker must be to count as crowding `u`.
pub open spec fn collision_range(u: WorkerObs) -> int {
    2 * (u.radius + u.step)
}

/// `w` blocks `u` at resource `r`: a teammate, other than `u`, not yet
/// commanded this tick, and not strictly further than the collision range.
pub open spec fn is_collider(
    u: WorkerObs,
    w: WorkerObs,
    bound: Seq<Binding>,
    r: u64,
    marked: Seq<u64>,
) -> bool {
    &&& teammate_of(bound, w.tag, r)
    &&& w.tag != u.tag
    &&& !marked.contains(w.tag)
    &&& !spec_further_than(u.pos, w.pos, collision_range(u))
}

/// `u` is colliding: some observed teammate blocks it.
pub open spec fn spec_collides(
    u: WorkerObs,
    units: Seq<WorkerObs>,
    bound: Seq<Binding>,
    r: u64,
    marked: Seq<u64>,
) -> bool {
    exists|j: int| 0 <= j < units.len() && is_collider(u, #[trigger] units[j], bound, r, marked)
}

/// The recovery command for a worker doing something it should not:
/// deposit if it carries a payload, else plain gather on its resource.
pub open spec fn spec_fallback(u: WorkerObs, rn: NodeObs) -> Option<Command> {
    if u.carrying {
        Some(Command::ReturnCargo)
    } else {
        Some(Command::Gather { resource: rn.tag })
    }
}

/// The per-unit decision: observed order + bound nodes + collision flag
/// to at most one command. `None` means the previous order continues.
pub open spec fn spec_decide(
    u: WorkerObs,
    rn: NodeObs,
    dn: NodeObs,
    coll: bool,
    gather: u64,
    ret: u64,
) -> Option<Command> {
    match u.order {
        UnitOrder::MoveTo(p) => {
            if spec_closer_than(p, rn.pos, rn.radius + u.step) {
                // approaching the resource
                if spec_closer_than(u.pos, rn.pos, u.radius + rn.radius + u.step) || coll {
                    Some(Command::UseOn { target: rn.tag })
                } else {
                    None
                }
            } else if spec_closer_than(p, dn.pos, dn.radius + u.step) {
                // approaching the depot
                if spec_closer_than(u.pos, dn.pos, u.radius + dn.radius + u.step) || coll {
                    Some(Command::UseOn { target: dn.tag })
                } else {
                    None
                }
            } else {
                spec_fallback(u, rn)
            }
        },
        UnitOrder::TargetedAbility { ability, target } => {
            if ability == gather && target == rn.tag {
                // extracting
                if spec_further_than(u.pos, rn.pos, u.radius + rn.radius + u.step) && !coll {
                    Some(Command::MoveBesideResource { resource: rn.tag, depot: dn.tag })
                } else {
                    None
                }
            } else if ability == ret && target == dn.tag {
                // returning
                if spec_further_than(u.pos, dn.pos, u.radius + dn.radius + u.step) && !coll {
                    Some(Command::MoveBesideDepot { depot: dn.tag })
                } else {
                    None
                }
            } else {
                spec_fallback(u, rn)
            }
        },
        UnitOrder::Other => spec_fallback(u, rn),
    }
}

/// What happens at position `i` of the pass, given the marks so far:
/// `None` when the unit is unbound, a bound node is unobserved, or the
/// decision lets the current order continue.
pub open spec fn step_of(
    bound: Seq<Binding>,
    units: Seq<WorkerObs>,
    rs: Seq<NodeObs>,
    ds: Seq<NodeObs>,
    gather: u64,
    ret: u64,
    i: int,
    marked: Seq<u64>,
) -> Option<(u64, Command)> {
    let u = units[i];
    match bound_pair_of(bound, u.tag) {
        Some(pair) => match (find_node(rs, pair.0), find_node(ds, pair.1)) {
            (Some(rn), Some(dn)) => match spec_decide(
                u,
                rn,
                dn,
                spec_collides(u, units, bound, pair.0, marked),
                gather,
                ret,
            ) {
                Some(c) => Some((u.tag, c)),
                None => None,
            },
            _ => None,
        },
        None => None,
    }
}

/// The whole pass from position `i` on, threading the marks: a unit that
/// receives a command is marked immediately, and later collision tests
/// see the mark.
pub open spec fn spec_run(
    bound: Seq<Binding>,
    units: Seq<WorkerObs>,
    rs: Seq<NodeObs>,
    ds: Seq<NodeObs>,
    gather: u64,
    ret: u64,
    i: int,
    marked: Seq<u64>,
) -> Seq<(u64, Command)>
    decreases units.len() - i,
{
    if !(0 <= i < units.len()) {
        Seq::empty()
    } else {
        match step_of(bound, units, rs, ds, gather, ret, i, marked) {
            Some(pc) => seq![pc] + spec_run(
                bound,
                units,
                rs,
                ds,
                gather,
                ret,
                i + 1,
                marked.push(pc.0),
            ),
            None => spec_run(bound, units, rs, ds, gather, ret, i + 1, marked),
        }
    }
}

// ---------------------------------------------------------------------
// Executable pass
// ---------------------------------------------------------------------

/// Finds the first observed node carrying `t`.
fn find_node_obs(ns: &Vec<NodeObs>, t: u64) -> (res: Option<NodeObs>)
    ensures
        res == find_node(ns@, t),
        res matches Some(n) ==> exists|j: int| 0 <= j < ns@.len() && ns@[j] == n,
{
    let ghost s = ns@;
    proof {
        assert(s.skip(0) =~= s);
    }
    let mut i: usize = 0;
    while i < ns.len()
        invariant
            0 <= i <= s.len(),
            ns@ == s,
            find_node(s, t) == find_node(s.skip(i as int), t),
        decreases s.len() - i,
    {
        proof {
            assert(s.skip(i as int)[0] == s[i as int]);
            assert(s.skip(i as int).drop_first() =~= s.skip(i as int + 1));
        }
        if ns[i].tag == t {
            return Some(ns[i]);
        }
        i += 1;
    }
    proof {
        assert(s.skip(s.len() as int) =~= Seq::<NodeObs>::empty());
    }
    None
}

/// True iff `x` stands in `v`.
fn contains_tag(v: &Vec<u64>, x: u64) -> (res: bool)
    ensures
        res == v@.contains(x),
{
    let mut i: usize = 0;
    while i < v.len()
        invariant
            0 <= i <= v@.len(),
            forall|j: int| 0 <= j < i ==> v@[j] != x,
        decreases v@.len() - i,
    {
        if v[i] == x {
            return true;
        }
        i += 1;
    }
    false
}

/// The collision test for `u` at its resource `r`, against the observed
/// teammates, honouring the marks made earlier this tick.
fn collides(
    u: &WorkerObs,
    units: &Vec<WorkerObs>,
    table: &BindingTable,
    r: u64,
    marked: &Vec<u64>,
) -> (res: bool)
    requires
        worker_obs_ok(*u),
        forall|i: int| 0 <= i < units@.len() ==> worker_obs_ok(#[trigger] units@[i]),
    ensures
        res == spec_collides(*u, units@, table@.bound, r, marked@),
{
    let range: i64 = 2 * (u.radius + u.step);
    let mut j: usize = 0;
    while j < units.len()
        invariant
            0 <= j <= units@.len(),
            worker_obs_ok(*u),
            forall|i: int| 0 <= i < units@.len() ==> worker_obs_ok(#[trigger] units@[i]),
            range == collision_range(*u),
            forall|i: int| 0 <= i < j ==> !is_collider(*u, units@[i], table@.bound, r, marked@),
        decreases units@.len() - j,
    {
        let w = units[j];
        let same = match table.binding_of(w.tag) {
            Some(p) => p.0 == r,
            None => false,
        };
        if same && w.tag != u.tag && !contains_tag(marked, w.tag) && !further_than(
            &u.pos,
            &w.pos,
            range,
        ) {
            proof {
                assert(is_collider(*u, units@[j as int], table@.bound, r, marked@));
            }
            return true;
        }
        j += 1;
    }
    false
}

/// The per-unit decision, exactly as `spec_decide` states it.
fn decide(u: &WorkerObs, rn: &NodeObs, dn: &NodeObs, coll: bool, gather: u64, ret: u64) -> (res:
    Option<Command>)
    requires
        worker_obs_ok(*u),
        node_obs_ok(*rn),
        node_obs_ok(*dn),
    ensures
        res == spec_decide(*u, *rn, *dn, coll, gather, ret),
{
    match u.order {
        UnitOrder::MoveTo(p) => {
            if closer_than(&p, &rn.pos, rn.radius + u.step) {
                if closer_than(&u.pos, &rn.pos, u.radius + rn.radius + u.step) || coll {
                    Some(Command::UseOn { target: rn.tag })
                } else {
                    None
                }
            } else if closer_than(&p, &dn.pos, dn.radius + u.step) {
                if closer_than(&u.pos, &dn.pos, u.radius + dn.radius + u.step) || coll {
                    Some(Command::UseOn { target: dn.tag })
                } else {
                    None
                }
            } else if u.carrying {
                Some(Command::ReturnCargo)
            } else {
                Some(Command::Gather { resource: rn.tag })
            }
        },
        UnitOrder::TargetedAbility { ability, target } => {
            if ability == gather && target == rn.tag {
                if further_than(&u.pos, &rn.pos, u.radius + rn.radius + u.step) && !coll {
                    Some(Command::MoveBesideResource { resource: rn.tag, depot: dn.tag })
                } else {
                    None
                }
            } else if ability == ret && target == dn.tag {
                if further_than(&u.pos, &dn.pos, u.radius + dn.radius + u.step) && !coll {
                    Some(Command::MoveBesideDepot { depot: dn.tag })
                } else {
                    None
                }
            } else if u.carrying {
                Some(Command::ReturnCargo)
            } else {
                Some(Command::Gather { resource: rn.tag })
            }
        },
        UnitOrder::Other => {
            if u.carrying {
                Some(Command::ReturnCargo)
            } else {
                Some(Command::Gather { resource: rn.tag })
            }
        },
    }
}

/// One full motion-inference pass over the observed workers, in snapshot
/// order. Each bound worker whose resource and depot are observed gets at
/// most one command; a commanded worker is marked at once, and later
/// workers' collision tests see the mark. The result pairs each commanded
/// worker's tag with its single command — no tag appears twice.
pub fn execute_micro(
    table: &BindingTable,
    units: &Vec<WorkerObs>,
    resources: &Vec<NodeObs>,
    depots: &Vec<NodeObs>,
    gather: u64,
    ret: u64,
) -> (out: Vec<(u64, Command)>)
    requires
        forall|i: int| 0 <= i < units@.len() ==> worker_obs_ok(#[trigger] units@[i]),
        forall|i: int| 0 <= i < resources@.len() ==> node_obs_ok(#[trigger] resources@[i]),
        forall|i: int| 0 <= i < depots@.len() ==> node_obs_ok(#[trigger] depots@[i]),
        tags_nodup(units@),
    ensures
        out@ == spec_run(table@.bound, units@, resources@, depots@, gather, ret, 0, Seq::empty()),
        forall|k1: int, k2: int| 0 <= k1 < k2 < out@.len() ==> out@[k1].0 != out@[k2].0,
{
    let ghost bound = table@.bound;
    let ghost us = units@;
    let ghost rs = resources@;
    let ghost ds = depots@;
    let mut out: Vec<(u64, Command)> = Vec::new();
    let mut marked: Vec<u64> = Vec::new();
    let mut i: usize = 0;
    while i < units.len()
        invariant
            0 <= i <= us.len(),
            units@ == us,
            resources@ == rs,
            depots@ == ds,
            table@.bound == bound,
            forall|i2: int| 0 <= i2 < us.len() ==> worker_obs_ok(#[trigger] us[i2]),
            forall|i2: int| 0 <= i2 < rs.len() ==> node_obs_ok(#[trigger] rs[i2]),
            forall|i2: int| 0 <= i2 < ds.len() ==> node_obs_ok(#[trigger] ds[i2]),
            spec_run(bound, us, rs, ds, gather, ret, 0, Seq::empty()) == out@ + spec_run(
                bound,
                us,
                rs,
                ds,
                gather,
                ret,
                i as int,
                marked@,
            ),
        decreases us.len() - i,
    {
        let u = units[i];
        let ghost marked0 = marked@;
        let ghost out0 = out@;
        let mut issued: Option<(u64, Command)> = None;
        match table.binding_of(u.tag) {
            Some(pair) => {
                let rn_opt = find_node_obs(resources, pair.0);
                let dn_opt = find_node_obs(depots, pair.1);
                match (rn_opt, dn_opt) {
                    (Some(rn), Some(dn)) => {
                        let coll = collides(&u, units, table, pair.0, &marked);
                        match decide(&u, &rn, &dn, coll, gather, ret) {
                            Some(c) => {
                                issued = Some((u.tag, c));
                            },
                            None => {},
                        }
                    },
                    _ => {},
                }
            },
            None => {},
        }
        proof {
            assert(step_of(bound, us, rs, ds, gather, ret, i as int, marked0) == issued@);
        }
        match issued {
            Some(pc) => {
                out.push(pc);
                marked.push(pc.0);
                proof {
                    assert(spec_run(bound, us, rs, ds, gather, ret, i as int, marked0) == seq![pc]
                        + spec_run(bound, us, rs, ds, gather, ret, i as int + 1, marked@));
                    assert(out@ + spec_run(bound, us, rs, ds, gather, ret, i as int + 1, marked@)
                        =~= out0 + spec_run(bound, us, rs, ds, gather, ret, i as int, marked0));
                }
            },
            None => {
                proof {
                    assert(spec_run(bound, us, rs, ds, gather, ret, i as int, marked0) == spec_run(
                        bound,
                        us,
                        rs,
                        ds,
                        gather,
                        ret,
                        i as int + 1,
                        marked0,
                    ));
                }
            },
        }
        i += 1;
    }
    proof {
        assert(spec_run(bound, us, rs, ds, gather, ret, us.len() as int, marked@)
            == Seq::<(u64, Command)>::empty());
        assert(out@ =~= spec_run(bound, us, rs, ds, gather, ret, 0, Seq::empty()));
        lemma_run_tags(bound, us, rs, ds, gather, ret, 0, Seq::empty());
    }
    out
}

/// Some unit at or after position `i` carries tag `t`.
pub open spec fn tag_among(units: Seq<WorkerObs>, i: int, t: u64) -> bool {
    exists|j: int| i <= j < units.len() && units[j].tag == t
}

/// Every pair the pass emits carries the tag of a distinct unit at or
/// after position `i`; in particular no tag is emitted twice.
proof fn lemma_run_tags(
    bound: Seq<Binding>,
    units: Seq<WorkerObs>,
    rs: Seq<NodeObs>,
    ds: Seq<NodeObs>,
    gather: u64,
    ret: u64,
    i: int,
    marked: Seq<u64>,
)
    requires
        tags_nodup(units),
    ensures
        forall|k: int|
            0 <= k < spec_run(bound, units, rs, ds, gather, ret, i, marked).len() ==> tag_among(
                units,
                i,
                (#[trigger] spec_run(bound, units, rs, ds, gather, ret, i, marked)[k]).0,
            ),
        forall|k1: int, k2: int|
            0 <= k1 < k2 < spec_run(bound, units, rs, ds, gather, ret, i, marked).len()
                ==> spec_run(bound, units, rs, ds, gather, ret, i, marked)[k1].0 != spec_run(
                bound,
                units,
                rs,
                ds,
                gather,
                ret,
                i,
                marked,
            )[k2].0,
    decreases units.len() - i,
{
    if 0 <= i < units.len() {
        let run = spec_run(bound, units, rs, ds, gather, ret, i, marked);
        match step_of(bound, units, rs, ds, gather, ret, i, marked) {
            Some(pc) => {
                let m1 = marked.push(pc.0);
                let rest = spec_run(bound, units, rs, ds, gather, ret, i + 1, m1);
                lemma_run_tags(bound, units, rs, ds, gather, ret, i + 1, m1);
                assert(run == seq![pc] + rest);
                assert(run[0] == pc);
                assert(pc.0 == units[i].tag);
                assert forall|k: int| 0 <= k < run.len() implies tag_among(units, i, run[k].0) by {
                    if k == 0 {
                        assert(i <= i < units.len() && units[i].tag == run[0].0);
                    } else {
                        assert(run[k] == rest[k - 1]);
                        assert(tag_among(units, i + 1, rest[k - 1].0));
                        let j = choose|j: int|
                            i + 1 <= j < units.len() && units[j].tag == rest[k - 1].0;
                        assert(i <= j < units.len() && units[j].tag == run[k].0);
                    }
                }
                assert forall|k1: int, k2: int| 0 <= k1 < k2 < run.len() implies run[k1].0
                    != run[k2].0 by {
                    if k1 == 0 {
                        assert(run[k2] == rest[k2 - 1]);
                        assert(tag_among(units, i + 1, rest[k2 - 1].0));
                        let j = choose|j: int|
                            i + 1 <= j < units.len() && units[j].tag == rest[k2 - 1].0;
                        assert(units[i].tag != units[j].tag);
                    } else {
                        assert(run[k1] == rest[k1 - 1]);
                        assert(run[k2] == rest[k2 - 1]);
                    }
                }
            },
            None => {
                lemma_run_tags(bound, units, rs, ds, gather, ret, i + 1, marked);
                let run2 = spec_run(bound, units, rs, ds, gather, ret, i + 1, marked);
                assert(run == run2);
                assert forall|k: int| 0 <= k < run.len() implies tag_among(units, i, run[k].0) by {
                    assert(tag_among(units, i + 1, run2[k].0));
                    let j = choose|j: int|
                        i + 1 <= j < units.len() && units[j].tag == run2[k].0;
                    assert(i <= j < units.len() && units[j].tag == run[k].0);
                }
            },
        }
    }
}

/// A unit whose step comes out `None` under every possible set of marks
/// is never commanded, wherever the pass starts.
proof fn lemma_unit_uncommanded(
    bound: Seq<Binding>,
    units: Seq<WorkerObs>,
    rs: Seq<NodeObs>,
    ds: Seq<NodeObs>,
    gather: u64,
    ret: u64,
    i0: int,
    j: int,
    marked: Seq<u64>,
)
    requires
        tags_nodup(units),
        0 <= i0 < units.len(),
        forall|m: Seq<u64>| step_of(bound, units, rs, ds, gather, ret, i0, m) is None,
    ensures
        forall|k: int|
            0 <= k < spec_run(bound, units, rs, ds, gather, ret, j, marked).len() ==> (
            #[trigger] spec_run(bound, units, rs, ds, gather, ret, j, marked)[k]).0
                != units[i0].tag,
    decreases units.len() - j,
{
    if 0 <= j < units.len() {
        let run = spec_run(bound, units, rs, ds, gather, ret, j, marked);
        match step_of(bound, units, rs, ds, gather, ret, j, marked) {
            Some(pc) => {
                assert(j != i0) by {
                    assert(step_of(bound, units, rs, ds, gather, ret, i0, marked) is None);
                }
                let m1 = marked.push(pc.0);
                let rest = spec_run(bound, units, rs, ds, gather, ret, j + 1, m1);
                lemma_unit_uncommanded(bound, units, rs, ds, gather, ret, i0, j + 1, m1);
                assert(run == seq![pc] + rest);
                assert forall|k: int| 0 <= k < run.len() implies run[k].0 != units[i0].tag by {
                    if k == 0 {
                        assert(pc.0 == units[j].tag);
                        assert(units[j].tag != units[i0].tag);
                    } else {
                        assert(run[k] == rest[k - 1]);
                    }
                }
            },
            None => {
                lemma_unit_uncommanded(bound, units, rs, ds, gather, ret, i0, j + 1, marked);
                let rest = spec_run(bound, units, rs, ds, gather, ret, j + 1, marked);
                assert(run == rest);
                assert forall|k: int| 0 <= k < run.len() implies run[k].0 != units[i0].tag by {
                    assert(rest[k].0 != units[i0].tag);
                }
            },
        }
    }
}

/// Steady-state idempotence: a worker mid-extraction — its observed order
/// is the gather ability on its bound resource, it stands within the
/// contact band, and no teammate is near enough to collide — receives no
/// command this tick.
pub proof fn lemma_steady_state_no_command(
    bound: Seq<Binding>,
    units: Seq<WorkerObs>,
    rs: Seq<NodeObs>,
    ds: Seq<NodeObs>,
    gather: u64,
    ret: u64,
    i0: int,
    rn: NodeObs,
    dn: NodeObs,
)
    requires
        tags_nodup(units),
        0 <= i0 < units.len(),
        bound_pair_of(bound, units[i0].tag) == Some((rn.tag, dn.tag)),
        find_node(rs, rn.tag) == Some(rn),
        find_node(ds, dn.tag) == Some(dn),
        units[i0].order == (UnitOrder::TargetedAbility { ability: gather, target: rn.tag }),
        !spec_further_than(
            units[i0].pos,
            rn.pos,
            units[i0].radius + rn.radius + units[i0].step,
        ),
        forall|j: int|
            0 <= j < units.len() && teammate_of(bound, (#[trigger] units[j]).tag, rn.tag)
                && units[j].tag != units[i0].tag ==> spec_further_than(
                units[i0].pos,
                units[j].pos,
                collision_range(units[i0]),
            ),
    ensures
        forall|k: int|
            0 <= k < spec_run(bound, units, rs, ds, gather, ret, 0, Seq::empty()).len() ==> (
            #[trigger] spec_run(bound, units, rs, ds, gather, ret, 0, Seq::empty())[k]).0
                != units[i0].tag,
{
    assert forall|m: Seq<u64>|
        step_of(bound, units, rs, ds, gather, ret, i0, m) is None by {
        let u = units[i0];
        assert(spec_decide(
            u,
            rn,
            dn,
            spec_collides(u, units, bound, rn.tag, m),
            gather,
            ret,
        ) is None);
    }
    lemma_unit_uncommanded(bound, units, rs, ds, gather, ret, i0, 0, Seq::empty());
}

} // verus!
