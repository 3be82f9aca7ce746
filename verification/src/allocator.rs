//! The binding allocator: computes, in a fixed deterministic order, the
//! open slots of every resource under a recorded depot, and matches them
//! one-to-one against the free workers until either side runs out.
//!
//! The order is explicit: depot records in recording order, each
//! expansion's resources in listed order, free workers in arrival order.
//! No command is issued here; this is pure bookkeeping.

use vstd::prelude::*;
use crate::table::{
    count_res, nodup_u64, Binding, BindingTable,
    DepotRecord, Expansion, TableView, RESOURCE_CAPACITY,
};

verus! {

/// How many u64s of `s` equal `x`.
pub open spec fn count_tag(s: Seq<u64>, x: u64) -> nat
    decreases s.len(),
{
    if s.len() == 0 {
        0
    } else {
        count_tag(s.drop_last(), x) + if s.last() == x {
            1nat
        } else {
            0nat
        }
    }
}

/// How many slots of `s` name resource `r`.
pub open spec fn count_slot(s: Seq<(u64, u64)>, r: u64) -> nat
    decreases s.len(),
{
    if s.len() == 0 {
        0
    } else {
        count_slot(s.drop_last(), r) + if s.last().0 == r {
            1nat
        } else {
            0nat
        }
    }
}

/// How many more workers resource `r` can take.
pub open spec fn open_n(bound: Seq<Binding>, r: u64) -> nat {
    if count_res(bound, r) >= RESOURCE_CAPACITY {
        0
    } else {
        (RESOURCE_CAPACITY - count_res(bound, r)) as nat
    }
}

/// The open slots of one resource, each tagged (resource, depot).
pub open spec fn open_slots(bound: Seq<Binding>, r: u64, depot: u64) -> Seq<(u64, u64)> {
    if count_res(bound, r) == 0 {
        seq![(r, depot), (r, depot)]
    } else if count_res(bound, r) == 1 {
        seq![(r, depot)]
    } else {
        Seq::empty()
    }
}

/// The open slots of an expansion's resources, in listed order.
pub open spec fn expansion_slots(bound: Seq<Binding>, rs: Seq<u64>, depot: u64) -> Seq<(u64, u64)>
    decreases rs.len(),
{
    if rs.len() == 0 {
        Seq::empty()
    } else {
        expansion_slots(bound, rs.drop_last(), depot) + open_slots(bound, rs.last(), depot)
    }
}

/// The whole demand list: open slots of every resource under a recorded
/// depot, depot records in recording order.
pub open spec fn demand_slots(
    bound: Seq<Binding>,
    depots: Seq<DepotRecord>,
    exps: Seq<Expansion>,
) -> Seq<(u64, u64)>
    decreases depots.len(),
{
    if depots.len() == 0 {
        Seq::empty()
    } else {
        demand_slots(bound, depots.drop_last(), exps) + expansion_slots(
            bound,
            exps[depots.last().expansion as int].resources@,
            depots.last().depot,
        )
    }
}

/// Every resource listed under a recorded depot, in demand order.
pub open spec fn recorded_resources(depots: Seq<DepotRecord>, exps: Seq<Expansion>) -> Seq<u64>
    decreases depots.len(),
{
    if depots.len() == 0 {
        Seq::empty()
    } else {
        recorded_resources(depots.drop_last(), exps)
            + exps[depots.last().expansion as int].resources@
    }
}

/// The first `k` free workers matched against the first `k` demand slots.
pub open spec fn matched_bindings(free: Seq<u64>, d: Seq<(u64, u64)>, k: int) -> Seq<Binding> {
    Seq::new(
        k as nat,
        |j: int| Binding { worker: free[j], resource: d[j].0, depot: d[j].1 },
    )
}

/// How many matches the allocator makes: demand and free workers matched
/// one-to-one until either side is exhausted.
pub open spec fn match_len(v: TableView, exps: Seq<Expansion>) -> int {
    let d = demand_slots(v.bound, v.depots, exps);
    if d.len() <= v.free.len() {
        d.len() as int
    } else {
        v.free.len() as int
    }
}

// ---------------------------------------------------------------------
// Counting lemmas
// ---------------------------------------------------------------------

proof fn lemma_count_slot_add(a: Seq<(u64, u64)>, b: Seq<(u64, u64)>, r: u64)
    ensures
        count_slot(a + b, r) == count_slot(a, r) + count_slot(b, r),
    decreases b.len(),
{
    if b.len() == 0 {
        assert(a + b =~= a);
    } else {
        lemma_count_slot_add(a, b.drop_last(), r);
        assert((a + b).drop_last() =~= a + b.drop_last());
        assert((a + b).last() == b.last());
    }
}

proof fn lemma_count_tag_add(a: Seq<u64>, b: Seq<u64>, r: u64)
    ensures
        count_tag(a + b, r) == count_tag(a, r) + count_tag(b, r),
    decreases b.len(),
{
    if b.len() == 0 {
        assert(a + b =~= a);
    } else {
        lemma_count_tag_add(a, b.drop_last(), r);
        assert((a + b).drop_last() =~= a + b.drop_last());
        assert((a + b).last() == b.last());
    }
}

proof fn lemma_count_res_add(a: Seq<Binding>, b: Seq<Binding>, r: u64)
    ensures
        count_res(a + b, r) == count_res(a, r) + count_res(b, r),
    decreases b.len(),
{
    if b.len() == 0 {
        assert(a + b =~= a);
    } else {
        lemma_count_res_add(a, b.drop_last(), r);
        assert((a + b).drop_last() =~= a + b.drop_last());
        assert((a + b).last() == b.last());
    }
}

proof fn lemma_open_slots_count(bound: Seq<Binding>, r0: u64, d: u64, r: u64)
    ensures
        r0 == r ==> count_slot(open_slots(bound, r0, d), r) == open_n(bound, r),
        r0 != r ==> count_slot(open_slots(bound, r0, d), r) == 0,
{
    let one = seq![(r0, d)];
    let two = seq![(r0, d), (r0, d)];
    let inc: nat = if r0 == r {
        1nat
    } else {
        0nat
    };
    assert(one.drop_last() =~= Seq::<(u64, u64)>::empty());
    assert(one.last() == (r0, d));
    assert(count_slot(Seq::<(u64, u64)>::empty(), r) == 0);
    assert(count_slot(one, r) == inc);
    assert(two.drop_last() =~= one);
    assert(two.last() == (r0, d));
    assert(count_slot(two, r) == inc + inc);
    if count_res(bound, r0) == 0 {
        assert(open_slots(bound, r0, d) == two);
        assert(open_n(bound, r0) == 2);
    } else if count_res(bound, r0) == 1 {
        assert(open_slots(bound, r0, d) == one);
        assert(open_n(bound, r0) == 1);
    } else {
        assert(open_slots(bound, r0, d) == Seq::<(u64, u64)>::empty());
    }
}

/// A resource absent from `rs` gets no slot from `rs`; one listed at most
/// once gets at most its open count.
proof fn lemma_expansion_slots_count(bound: Seq<Binding>, rs: Seq<u64>, d: u64, r: u64)
    ensures
        count_tag(rs, r) == 0 ==> count_slot(expansion_slots(bound, rs, d), r) == 0,
        count_tag(rs, r) <= 1 ==> count_slot(expansion_slots(bound, rs, d), r) <= open_n(bound, r),
    decreases rs.len(),
{
    if rs.len() > 0 {
        lemma_expansion_slots_count(bound, rs.drop_last(), d, r);
        lemma_count_slot_add(
            expansion_slots(bound, rs.drop_last(), d),
            open_slots(bound, rs.last(), d),
            r,
        );
        lemma_open_slots_count(bound, rs.last(), d, r);
    }
}

/// Same, lifted to the whole demand list over the recorded resources.
proof fn lemma_demand_count(
    bound: Seq<Binding>,
    depots: Seq<DepotRecord>,
    exps: Seq<Expansion>,
    r: u64,
)
    ensures
        count_tag(recorded_resources(depots, exps), r) == 0 ==> count_slot(
            demand_slots(bound, depots, exps),
            r,
        ) == 0,
        count_tag(recorded_resources(depots, exps), r) <= 1 ==> count_slot(
            demand_slots(bound, depots, exps),
            r,
        ) <= open_n(bound, r),
    decreases depots.len(),
{
    if depots.len() > 0 {
        let d0 = depots.drop_last();
        let rs = exps[depots.last().expansion as int].resources@;
        lemma_demand_count(bound, d0, exps, r);
        lemma_count_slot_add(
            demand_slots(bound, d0, exps),
            expansion_slots(bound, rs, depots.last().depot),
            r,
        );
        lemma_count_tag_add(recorded_resources(d0, exps), rs, r);
        lemma_expansion_slots_count(bound, rs, depots.last().depot, r);
    }
}

proof fn lemma_count_tag_zero(s: Seq<u64>, x: u64)
    requires
        forall|i: int| 0 <= i < s.len() ==> s[i] != x,
    ensures
        count_tag(s, x) == 0,
    decreases s.len(),
{
    if s.len() > 0 {
        lemma_count_tag_zero(s.drop_last(), x);
    }
}

/// A duplicate-free list counts every identity at most once.
proof fn lemma_nodup_count_tag(s: Seq<u64>, x: u64)
    requires
        nodup_u64(s),
    ensures
        count_tag(s, x) <= 1,
    decreases s.len(),
{
    if s.len() > 0 {
        let s0 = s.drop_last();
        assert(nodup_u64(s0));
        lemma_nodup_count_tag(s0, x);
        if s.last() == x {
            assert forall|i: int| 0 <= i < s0.len() implies s0[i] != x by {
                assert(s[i] != s[s.len() - 1]);
            }
            lemma_count_tag_zero(s0, x);
        }
    }
}

/// The matched bindings load each resource exactly as often as the
/// matched prefix of the demand list names it.
proof fn lemma_matched_count(free: Seq<u64>, d: Seq<(u64, u64)>, k: int, r: u64)
    requires
        0 <= k <= d.len(),
    ensures
        count_res(matched_bindings(free, d, k), r) == count_slot(d.take(k), r),
    decreases k,
{
    if k == 0 {
        assert(matched_bindings(free, d, 0) =~= Seq::<Binding>::empty());
        assert(d.take(0) =~= Seq::<(u64, u64)>::empty());
    } else {
        lemma_matched_count(free, d, k - 1, r);
        let m1 = matched_bindings(free, d, k);
        let m0 = matched_bindings(free, d, k - 1);
        assert(m1.drop_last() =~= m0);
        assert(m1.last() == (Binding { worker: free[k - 1], resource: d[k - 1].0, depot: d[
            k - 1].1 }));
        assert(d.take(k).drop_last() =~= d.take(k - 1));
        assert(d.take(k).last() == d[k - 1]);
    }
}

proof fn lemma_count_slot_take_le(d: Seq<(u64, u64)>, k: int, r: u64)
    requires
        0 <= k <= d.len(),
    ensures
        count_slot(d.take(k), r) <= count_slot(d, r),
{
    assert(d =~= d.take(k) + d.skip(k));
    lemma_count_slot_add(d.take(k), d.skip(k), r);
}

// ---------------------------------------------------------------------
// The allocator
// ---------------------------------------------------------------------

/// The allocator may run: every depot record points into `exps`, and no
/// resource is listed under two recorded depots.
pub open spec fn allocator_ready_spec(v: TableView, exps: Seq<Expansion>) -> bool {
    &&& forall|i: int|
        0 <= i < v.depots.len() ==> (#[trigger] v.depots[i]).expansion < exps.len()
    &&& nodup_u64(recorded_resources(v.depots, exps))
}

impl BindingTable {
    /// Checks `assign_roles`'s preconditions against `exps`, so a host
    /// loop can skip a tick instead of running on inconsistent topology.
    pub fn allocator_ready(&self, exps: &Vec<Expansion>) -> (r: bool)
        ensures
            r == allocator_ready_spec(self@, exps@),
    {
        let ghost deps = self@.depots;

        // 1. Every record points into the expansion list.
        let mut b: usize = 0;
        while b < self.depots.len()
            invariant
                0 <= b <= deps.len(),
                self@.depots == deps,
                forall|i: int| 0 <= i < b ==> (#[trigger] deps[i]).expansion < exps@.len(),
            decreases deps.len() - b,
        {
            if self.depots[b].expansion >= exps.len() {
                return false;
            }
            b += 1;
        }

        // 2. Collect every recorded resource, in demand order.
        let mut all: Vec<u64> = Vec::new();
        let mut b2: usize = 0;
        while b2 < self.depots.len()
            invariant
                0 <= b2 <= deps.len(),
                self@.depots == deps,
                forall|i: int| 0 <= i < deps.len() ==> (#[trigger] deps[i]).expansion < exps@.len(),
                all@ == recorded_resources(deps.take(b2 as int), exps@),
            decreases deps.len() - b2,
        {
            let drec = self.depots[b2];
            let ghost rs = exps@[drec.expansion as int].resources@;
            let mut t: usize = 0;
            while t < exps[drec.expansion].resources.len()
                invariant
                    0 <= t <= rs.len(),
                    self@.depots == deps,
                    0 <= b2 < deps.len(),
                    drec == deps[b2 as int],
                    drec.expansion < exps@.len(),
                    rs == exps@[drec.expansion as int].resources@,
                    all@ == recorded_resources(deps.take(b2 as int), exps@) + rs.take(t as int),
                decreases rs.len() - t,
            {
                let ghost allt = all@;
                all.push(exps[drec.expansion].resources[t]);
                proof {
                    assert(rs.take(t as int + 1) =~= rs.take(t as int).push(rs[t as int]));
                    assert(all@ =~= recorded_resources(deps.take(b2 as int), exps@) + rs.take(
                        t as int + 1,
                    ));
                }
                t += 1;
            }
            proof {
                assert(rs.take(rs.len() as int) =~= rs);
                assert(deps.take(b2 as int + 1).drop_last() =~= deps.take(b2 as int));
                assert(deps.take(b2 as int + 1).last() == deps[b2 as int]);
                assert(recorded_resources(deps.take(b2 as int + 1), exps@) == recorded_resources(
                    deps.take(b2 as int),
                    exps@,
                ) + rs);
            }
            b2 += 1;
        }
        proof {
            assert(deps.take(deps.len() as int) =~= deps);
        }

        // 3. No resource twice.
        let mut i: usize = 0;
        while i < all.len()
            invariant
                0 <= i <= all@.len(),
                self@.depots == deps,
                all@ == recorded_resources(deps, exps@),
                forall|p: int, q: int| 0 <= p < q < i ==> all@[p] != all@[q],
            decreases all@.len() - i,
        {
            let mut j: usize = 0;
            while j < i
                invariant
                    0 <= j <= i < all@.len(),
                    self@.depots == deps,
                    all@ == recorded_resources(deps, exps@),
                    forall|p: int, q: int| 0 <= p < q < i ==> all@[p] != all@[q],
                    forall|p: int| 0 <= p < j ==> all@[p] != all@[i as int],
                decreases i - j,
            {
                if all[j] == all[i] {
                    proof {
                        assert(!nodup_u64(all@)) by {
                            if nodup_u64(all@) {
                                assert(all@[j as int] != all@[i as int]);
                            }
                        }
                        assert(all@ == recorded_resources(self@.depots, exps@));
                        assert(!nodup_u64(recorded_resources(self@.depots, exps@)));
                        assert(!allocator_ready_spec(self@, exps@));
                    }
                    return false;
                }
                j += 1;
            }
            i += 1;
        }
        true
    }

    /// How many workers are currently bound to `r`.
    pub fn count_assigned(&self, r: u64) -> (c: usize)
        ensures
            c == count_res(self@.bound, r),
    {
        let ghost s = self@.bound;
        let mut c: usize = 0;
        let mut i: usize = 0;
        while i < self.bindings.len()
            invariant
                0 <= i <= s.len(),
                self@.bound == s,
                c == count_res(s.take(i as int), r),
                c <= i,
            decreases s.len() - i,
        {
            proof {
                assert(s.take(i as int + 1).drop_last() =~= s.take(i as int));
                assert(s.take(i as int + 1).last() == s[i as int]);
            }
            if self.bindings[i].resource == r {
                c += 1;
            }
            i += 1;
        }
        proof {
            assert(s.take(s.len() as int) =~= s);
        }
        c
    }

    /// One allocator pass. Demand is computed over the current bindings
    /// (depot records in recording order, resources in listed order) and
    /// matched one-to-one against the free workers in arrival order;
    /// unmatched free workers stay for the next tick. Requires that every
    /// depot record points into `exps` and that no resource is listed
    /// under two recorded depots.
    pub fn assign_roles(&mut self, exps: &Vec<Expansion>)
        requires
            old(self).wf(),
            allocator_ready_spec(old(self)@, exps@),
        ensures
            final(self).wf(),
            final(self)@.depots == old(self)@.depots,
            final(self)@.bound == old(self)@.bound + matched_bindings(
                old(self)@.free,
                demand_slots(old(self)@.bound, old(self)@.depots, exps@),
                match_len(old(self)@, exps@),
            ),
            final(self)@.free == old(self)@.free.skip(match_len(old(self)@, exps@)),
    {
        let ghost bound0 = self@.bound;
        let ghost deps = self@.depots;
        let ghost free0 = self@.free;

        // 1. Build the demand list.
        let mut dem: Vec<(u64, u64)> = Vec::new();
        let mut b: usize = 0;
        while b < self.depots.len()
            invariant
                0 <= b <= deps.len(),
                self@.depots == deps,
                self@.bound == bound0,
                self@.free == free0,
                forall|i: int| 0 <= i < deps.len() ==> (#[trigger] deps[i]).expansion < exps@.len(),
                dem@ == demand_slots(bound0, deps.take(b as int), exps@),
            decreases deps.len() - b,
        {
            let drec = self.depots[b];
            let ghost rs = exps@[drec.expansion as int].resources@;
            let mut t: usize = 0;
            while t < exps[drec.expansion].resources.len()
                invariant
                    0 <= t <= rs.len(),
                    self@.depots == deps,
                    self@.bound == bound0,
                    self@.free == free0,
                    0 <= b < deps.len(),
                    drec == deps[b as int],
                    drec.expansion < exps@.len(),
                    rs == exps@[drec.expansion as int].resources@,
                    dem@ == demand_slots(bound0, deps.take(b as int), exps@) + expansion_slots(
                        bound0,
                        rs.take(t as int),
                        drec.depot,
                    ),
                decreases rs.len() - t,
            {
                let r = exps[drec.expansion].resources[t];
                let c = self.count_assigned(r);
                let ghost demt = dem@;
                if c == 0 {
                    dem.push((r, drec.depot));
                    dem.push((r, drec.depot));
                } else if c == 1 {
                    dem.push((r, drec.depot));
                }
                proof {
                    assert(rs.take(t as int + 1).drop_last() =~= rs.take(t as int));
                    assert(rs.take(t as int + 1).last() == rs[t as int]);
                    assert(expansion_slots(bound0, rs.take(t as int + 1), drec.depot)
                        == expansion_slots(bound0, rs.take(t as int), drec.depot) + open_slots(
                        bound0,
                        r,
                        drec.depot,
                    ));
                    assert(dem@ =~= demt + open_slots(bound0, r, drec.depot));
                    assert(dem@ =~= demand_slots(bound0, deps.take(b as int), exps@)
                        + expansion_slots(bound0, rs.take(t as int + 1), drec.depot));
                }
                t += 1;
            }
            proof {
                assert(rs.take(rs.len() as int) =~= rs);
                assert(deps.take(b as int + 1).drop_last() =~= deps.take(b as int));
                assert(deps.take(b as int + 1).last() == deps[b as int]);
                assert(demand_slots(bound0, deps.take(b as int + 1), exps@) == demand_slots(
                    bound0,
                    deps.take(b as int),
                    exps@,
                ) + expansion_slots(bound0, rs, drec.depot));
            }
            b += 1;
        }
        proof {
            assert(deps.take(deps.len() as int) =~= deps);
        }
        let ghost demand = dem@;

        // 2. Match the first k free workers against the first k slots.
        let k: usize = if dem.len() <= self.free_workers.len() {
            dem.len()
        } else {
            self.free_workers.len()
        };
        proof {
            assert(k as int == match_len(old(self)@, exps@));
        }
        let mut j: usize = 0;
        while j < k
            invariant
                0 <= j <= k,
                k <= demand.len(),
                k <= free0.len(),
                dem@ == demand,
                self@.free == free0,
                self@.depots == deps,
                self@.bound == bound0 + matched_bindings(free0, demand, j as int),
            decreases k - j,
        {
            let w = self.free_workers[j];
            let slot = dem[j];
            self.bindings.push(Binding { worker: w, resource: slot.0, depot: slot.1 });
            proof {
                assert(matched_bindings(free0, demand, j as int + 1).drop_last()
                    =~= matched_bindings(free0, demand, j as int));
                assert(bound0 + matched_bindings(free0, demand, j as int + 1) =~= (bound0
                    + matched_bindings(free0, demand, j as int)).push(
                    (Binding { worker: w, resource: slot.0, depot: slot.1 }),
                ));
            }
            j += 1;
        }

        // 3. The unmatched free workers stay, in order.
        let mut nf: Vec<u64> = Vec::new();
        let mut j2: usize = k;
        while j2 < self.free_workers.len()
            invariant
                k <= j2 <= free0.len(),
                self@.free == free0,
                nf@ == free0.subrange(k as int, j2 as int),
            decreases free0.len() - j2,
        {
            nf.push(self.free_workers[j2]);
            proof {
                assert(free0.subrange(k as int, j2 as int + 1) =~= free0.subrange(
                    k as int,
                    j2 as int,
                ).push(free0[j2 as int]));
            }
            j2 += 1;
        }
        self.free_workers = nf;
        proof {
            assert(final(self)@.free =~= free0.skip(k as int));
        }

        // 4. Well-formedness of the result.
        proof {
            let m = matched_bindings(free0, demand, k as int);
            let bound1 = bound0 + m;
            let free1 = free0.skip(k as int);
            assert(final(self)@.bound == bound1);
            assert forall|i2: int, j3: int| 0 <= i2 < j3 < free1.len() implies free1[i2]
                != free1[j3] by {
                assert(free0[k + i2] != free0[k + j3]);
            }
            assert forall|i2: int, j3: int| 0 <= i2 < j3 < bound1.len() implies bound1[i2].worker
                != bound1[j3].worker by {
                if i2 >= bound0.len() {
                    assert(free0[i2 - bound0.len()] != free0[j3 - bound0.len()]);
                } else if j3 >= bound0.len() {
                    assert(free0[j3 - bound0.len()] != bound0[i2].worker);
                }
            }
            assert forall|i2: int, j3: int|
                0 <= i2 < free1.len() && 0 <= j3 < bound1.len() implies free1[i2]
                != bound1[j3].worker by {
                if j3 >= bound0.len() {
                    assert(free0[k + i2] != free0[j3 - bound0.len()]);
                } else {
                    assert(free0[k + i2] != bound0[j3].worker);
                }
            }
            assert forall|r: u64| count_res(bound1, r) <= RESOURCE_CAPACITY by {
                lemma_count_res_add(bound0, m, r);
                lemma_matched_count(free0, demand, k as int, r);
                lemma_count_slot_take_le(demand, k as int, r);
                lemma_nodup_count_tag(recorded_resources(deps, exps@), r);
                lemma_demand_count(bound0, deps, exps@, r);
                assert(count_res(bound0, r) <= RESOURCE_CAPACITY);
                assert(count_res(m, r) <= open_n(bound0, r));
            }
        }
    }
}

} // verus!
