//! The binding table: the single source of truth for "who is working
//! where". Holds the free workers, the worker ↔ (resource, depot)
//! bindings, and the completed depots with the expansion each anchors.
//!
//! The table's well-formedness invariant gives each worker at most one
//! binding, caps every resource at two bound workers, and keeps the free
//! set disjoint from the bound set. Every mutating operation preserves it.

use vstd::prelude::*;

verus! {

/// Per-resource concurrency cap: at most this many workers may be bound
/// to one resource node at a time.
pub const RESOURCE_CAPACITY: u64 = 2;

/// One worker ↔ (resource, depot) binding.
#[derive(Clone, Copy, PartialEq, Eq, Structural, Debug)]
pub struct Binding {
    pub worker: u64,
    pub resource: u64,
    pub depot: u64,
}

/// A static base location: the depot identity once one stands there, and
/// the resource nodes belonging to the spot.
#[derive(Debug)]
pub struct Expansion {
    pub depot: Option<u64>,
    pub resources: Vec<u64>,
}

/// A completed depot together with the index of the expansion it anchors.
#[derive(Clone, Copy, PartialEq, Eq, Structural, Debug)]
pub struct DepotRecord {
    pub depot: u64,
    pub expansion: usize,
}

/// Mathematical view of a [`BindingTable`].
#[verifier::ext_equal]
pub struct TableView {
    pub free: Seq<u64>,
    pub bound: Seq<Binding>,
    pub depots: Seq<DepotRecord>,
}

/// The binding table. Fields are public so that a host loop or a test can
/// build a state directly; the operations require and preserve `wf`.
pub struct BindingTable {
    /// Workers with no binding, in arrival order.
    pub free_workers: Vec<u64>,
    /// All live bindings, in creation order; one entry per bound worker.
    pub bindings: Vec<Binding>,
    /// Completed depots, each with the expansion it anchors.
    pub depots: Vec<DepotRecord>,
}

impl View for BindingTable {
    type V = TableView;

    open spec fn view(&self) -> TableView {
        TableView {
            free: self.free_workers@,
            bound: self.bindings@,
            depots: self.depots@,
        }
    }
}

// ---------------------------------------------------------------------
// Spec functions over the model
// ---------------------------------------------------------------------

/// How many bindings of `s` point at resource `r`.
pub open spec fn count_res(s: Seq<Binding>, r: u64) -> nat
    decreases s.len(),
{
    if s.len() == 0 {
        0
    } else {
        count_res(s.drop_last(), r) + if s.last().resource == r {
            1nat
        } else {
            0nat
        }
    }
}

/// The workers bound to resource `r`, in binding order.
pub open spec fn workers_of(s: Seq<Binding>, r: u64) -> Seq<u64>
    decreases s.len(),
{
    if s.len() == 0 {
        Seq::empty()
    } else {
        let rest = workers_of(s.drop_last(), r);
        if s.last().resource == r {
            rest.push(s.last().worker)
        } else {
            rest
        }
    }
}

/// The bindings that survive the loss of resource `r`.
pub open spec fn drop_res(s: Seq<Binding>, r: u64) -> Seq<Binding>
    decreases s.len(),
{
    if s.len() == 0 {
        Seq::empty()
    } else {
        let rest = drop_res(s.drop_last(), r);
        if s.last().resource == r {
            rest
        } else {
            rest.push(s.last())
        }
    }
}

/// The bindings that survive the loss of worker `w`.
pub open spec fn drop_worker(s: Seq<Binding>, w: u64) -> Seq<Binding>
    decreases s.len(),
{
    if s.len() == 0 {
        Seq::empty()
    } else {
        let rest = drop_worker(s.drop_last(), w);
        if s.last().worker == w {
            rest
        } else {
            rest.push(s.last())
        }
    }
}

/// The identities of `s` other than `x`, in order.
pub open spec fn drop_tag(s: Seq<u64>, x: u64) -> Seq<u64>
    decreases s.len(),
{
    if s.len() == 0 {
        Seq::empty()
    } else {
        let rest = drop_tag(s.drop_last(), x);
        if s.last() == x {
            rest
        } else {
            rest.push(s.last())
        }
    }
}

/// The depot records other than the one keyed `t`, in order.
pub open spec fn drop_depot(ds: Seq<DepotRecord>, t: u64) -> Seq<DepotRecord>
    decreases ds.len(),
{
    if ds.len() == 0 {
        Seq::empty()
    } else {
        let rest = drop_depot(ds.drop_last(), t);
        if ds.last().depot == t {
            rest
        } else {
            rest.push(ds.last())
        }
    }
}

/// Ownership classification of a destroyed entity, as the host reports it.
#[derive(Clone, Copy, PartialEq, Eq, Structural, Debug)]
pub enum Alliance {
    Own,
    Neutral,
    Other,
}

/// What a destruction event turned out to concern.
#[derive(Clone, Copy, PartialEq, Eq, Structural, Debug)]
pub enum DestroyOutcome {
    /// A known depot fell: its whole expansion was released.
    Cascade,
    /// A bound worker fell: its binding was erased.
    WorkerUnbound,
    /// A free worker fell: it left the free set.
    FreeWorkerRemoved,
    /// An own entity the table does not know; nothing moved.
    Unknown,
    /// A neutral entity: treated as a depleted resource and released.
    ResourceReleased,
    /// Neither own nor neutral; nothing moved.
    Ignored,
}

/// Some depot record of `ds` carries key `t`.
pub open spec fn has_depot_key(ds: Seq<DepotRecord>, t: u64) -> bool {
    exists|i: int| 0 <= i < ds.len() && ds[i].depot == t
}

/// The state change a falling depot record at position `p` brings about:
/// the record leaves, and if it points at a real expansion, every resource
/// listed there is released, left to right.
pub open spec fn cascade_effect(v0: TableView, exps: Seq<Expansion>, p: int, v1: TableView) -> bool {
    let rec = v0.depots[p];
    let mid = TableView { free: v0.free, bound: v0.bound, depots: drop_depot(v0.depots, rec.depot) };
    if rec.expansion < exps.len() {
        v1 == release_all(mid, exps[rec.expansion as int].resources@)
    } else {
        v1 == mid
    }
}

/// Some binding of `s` belongs to worker `w`.
pub open spec fn has_worker(s: Seq<Binding>, w: u64) -> bool {
    exists|i: int| 0 <= i < s.len() && s[i].worker == w
}

/// Some binding of `s` binds worker `w` to resource `r`.
pub open spec fn binds_to(s: Seq<Binding>, w: u64, r: u64) -> bool {
    exists|i: int| 0 <= i < s.len() && s[i].worker == w && s[i].resource == r
}

/// `b` stands somewhere in `s`.
pub open spec fn binding_in(s: Seq<Binding>, b: Binding) -> bool {
    exists|i: int| 0 <= i < s.len() && s[i] == b
}

/// The (resource, depot) pair of the first binding of worker `w`, if any.
/// Under `wf` a worker has at most one binding, so "first" is the only one.
pub open spec fn bound_pair_of(s: Seq<Binding>, w: u64) -> Option<(u64, u64)>
    decreases s.len(),
{
    if s.len() == 0 {
        None
    } else if s[0].worker == w {
        Some((s[0].resource, s[0].depot))
    } else {
        bound_pair_of(s.drop_first(), w)
    }
}

pub open spec fn nodup_u64(s: Seq<u64>) -> bool {
    forall|i: int, j: int| 0 <= i < j < s.len() ==> s[i] != s[j]
}

pub open spec fn workers_nodup(s: Seq<Binding>) -> bool {
    forall|i: int, j: int| 0 <= i < j < s.len() ==> s[i].worker != s[j].worker
}

pub open spec fn depots_nodup(ds: Seq<DepotRecord>) -> bool {
    forall|i: int, j: int| 0 <= i < j < ds.len() ==> ds[i].depot != ds[j].depot
}

pub open spec fn free_bound_disjoint(free: Seq<u64>, bound: Seq<Binding>) -> bool {
    forall|i: int, j: int|
        0 <= i < free.len() && 0 <= j < bound.len() ==> free[i] != bound[j].worker
}

/// One resource vanishing: its workers return to the free set (in binding
/// order), its bindings disappear, depot records stay.
pub open spec fn release_one(v: TableView, r: u64) -> TableView {
    TableView {
        free: v.free + workers_of(v.bound, r),
        bound: drop_res(v.bound, r),
        depots: v.depots,
    }
}

/// A list of resources vanishing, released left to right.
pub open spec fn release_all(v: TableView, rs: Seq<u64>) -> TableView
    decreases rs.len(),
{
    if rs.len() == 0 {
        v
    } else {
        release_all(release_one(v, rs[0]), rs.drop_first())
    }
}

impl TableView {
    /// Well-formedness: free workers distinct, one binding per worker, the
    /// free and bound sets disjoint, every resource at or under capacity,
    /// depot records keyed uniquely.
    pub open spec fn wf(self) -> bool {
        &&& nodup_u64(self.free)
        &&& workers_nodup(self.bound)
        &&& free_bound_disjoint(self.free, self.bound)
        &&& forall|r: u64| count_res(self.bound, r) <= RESOURCE_CAPACITY
        &&& depots_nodup(self.depots)
    }
}

impl BindingTable {
    pub open spec fn wf(self) -> bool {
        self@.wf()
    }

    /// An empty table: no workers known, no bindings, no depots.
    pub fn new() -> (t: Self)
        ensures
            t@.free == Seq::<u64>::empty(),
            t@.bound == Seq::<Binding>::empty(),
            t@.depots == Seq::<DepotRecord>::empty(),
            t.wf(),
    {
        let t = BindingTable { free_workers: Vec::new(), bindings: Vec::new(), depots: Vec::new() };
        proof {
            assert(count_res(t@.bound, 0u64) == 0);
            assert(forall|r: u64| count_res(t@.bound, r) == 0);
        }
        t
    }

    /// True iff `w` stands in the free set.
    pub fn is_free_worker(&self, w: u64) -> (r: bool)
        ensures
            r == self@.free.contains(w),
    {
        let mut i: usize = 0;
        while i < self.free_workers.len()
            invariant
                0 <= i <= self@.free.len(),
                forall|j: int| 0 <= j < i ==> self@.free[j] != w,
            decreases self@.free.len() - i,
        {
            if self.free_workers[i] == w {
                return true;
            }
            i += 1;
        }
        false
    }

    /// True iff some binding belongs to `w`.
    pub fn is_bound_worker(&self, w: u64) -> (r: bool)
        ensures
            r == has_worker(self@.bound, w),
    {
        let mut i: usize = 0;
        while i < self.bindings.len()
            invariant
                0 <= i <= self@.bound.len(),
                forall|j: int| 0 <= j < i ==> self@.bound[j].worker != w,
            decreases self@.bound.len() - i,
        {
            if self.bindings[i].worker == w {
                return true;
            }
            i += 1;
        }
        false
    }

    /// The (resource, depot) pair the worker `w` is bound to, if any.
    pub fn binding_of(&self, w: u64) -> (res: Option<(u64, u64)>)
        ensures
            res == bound_pair_of(self@.bound, w),
    {
        let ghost s = self@.bound;
        proof {
            assert(s.skip(0) =~= s);
        }
        let mut i: usize = 0;
        while i < self.bindings.len()
            invariant
                0 <= i <= s.len(),
                self@.bound == s,
                bound_pair_of(s, w) == bound_pair_of(s.skip(i as int), w),
            decreases s.len() - i,
        {
            let b = self.bindings[i];
            proof {
                assert(s.skip(i as int)[0] == s[i as int]);
                assert(s.skip(i as int).drop_first() =~= s.skip(i as int + 1));
            }
            if b.worker == w {
                return Some((b.resource, b.depot));
            }
            i += 1;
        }
        proof {
            assert(s.skip(s.len() as int) =~= Seq::<Binding>::empty());
        }
        None
    }

    /// A worker enters the world: it joins the free set, unless the table
    /// already knows it (a stale duplicate is dropped rather than let it
    /// corrupt the table).
    pub fn on_worker_created(&mut self, w: u64) -> (added: bool)
        requires
            old(self).wf(),
        ensures
            final(self).wf(),
            added == (!old(self)@.free.contains(w) && !has_worker(old(self)@.bound, w)),
            added ==> final(self)@.free == old(self)@.free.push(w),
            !added ==> final(self)@.free == old(self)@.free,
            final(self)@.bound == old(self)@.bound,
            final(self)@.depots == old(self)@.depots,
    {
        if self.is_free_worker(w) || self.is_bound_worker(w) {
            return false;
        }
        self.free_workers.push(w);
        true
    }
}

// ---------------------------------------------------------------------
// Lemmas about the model functions
// ---------------------------------------------------------------------

/// Unfolds `count_res`, `workers_of` and `drop_res` one step along a
/// prefix of `s`.
proof fn lemma_release_take_step(s: Seq<Binding>, r: u64, i: int)
    requires
        0 <= i < s.len(),
    ensures
        count_res(s.take(i + 1), r) == count_res(s.take(i), r) + if s[i].resource == r {
            1nat
        } else {
            0nat
        },
        s[i].resource == r ==> workers_of(s.take(i + 1), r) == workers_of(s.take(i), r).push(
            s[i].worker,
        ),
        s[i].resource == r ==> drop_res(s.take(i + 1), r) == drop_res(s.take(i), r),
        s[i].resource != r ==> workers_of(s.take(i + 1), r) == workers_of(s.take(i), r),
        s[i].resource != r ==> drop_res(s.take(i + 1), r) == drop_res(s.take(i), r).push(s[i]),
{
    assert(s.take(i + 1).drop_last() =~= s.take(i));
    assert(s.take(i + 1).last() == s[i]);
}

/// The workers bound to `r` are pairwise distinct, each of them stands in
/// some binding of `s` on resource `r`, and there are exactly as many of
/// them as `s` has bindings on `r`.
proof fn lemma_workers_of_props(s: Seq<Binding>, r: u64)
    requires
        workers_nodup(s),
    ensures
        nodup_u64(workers_of(s, r)),
        forall|k: int|
            0 <= k < workers_of(s, r).len() ==> binds_to(s, #[trigger] workers_of(s, r)[k], r),
        workers_of(s, r).len() == count_res(s, r),
    decreases s.len(),
{
    if s.len() > 0 {
        let s0 = s.drop_last();
        assert(workers_nodup(s0));
        lemma_workers_of_props(s0, r);
        let w0 = workers_of(s0, r);
        if s.last().resource == r {
            let w1 = workers_of(s, r);
            assert(w1 == w0.push(s.last().worker));
            assert forall|k: int| 0 <= k < w1.len() implies binds_to(s, w1[k], r) by {
                if k < w0.len() {
                    assert(binds_to(s0, w0[k], r));
                    let a = choose|a: int|
                        0 <= a < s0.len() && s0[a].worker == w0[k] && s0[a].resource == r;
                    assert(s[a] == s0[a]);
                    assert(s[a].worker == w1[k] && s[a].resource == r);
                } else {
                    assert(s[s.len() - 1].worker == w1[k] && s[s.len() - 1].resource == r);
                }
            }
            assert forall|i: int, j: int| 0 <= i < j < w1.len() implies w1[i] != w1[j] by {
                if j == w1.len() - 1 {
                    assert(binds_to(s0, w0[i], r));
                    let a = choose|a: int|
                        0 <= a < s0.len() && s0[a].worker == w0[i] && s0[a].resource == r;
                    assert(s[a] == s0[a]);
                    assert(s[a].worker != s.last().worker);
                }
            }
        } else {
            assert forall|k: int| 0 <= k < workers_of(s, r).len() implies binds_to(
                s,
                workers_of(s, r)[k],
                r,
            ) by {
                assert(binds_to(s0, w0[k], r));
                let a = choose|a: int|
                    0 <= a < s0.len() && s0[a].worker == w0[k] && s0[a].resource == r;
                assert(s[a] == s0[a]);
            }
        }
    }
}

/// Dropping resource `r` keeps workers pairwise distinct; every surviving
/// binding already stood in `s` and is not on `r`.
proof fn lemma_drop_res_props(s: Seq<Binding>, r: u64)
    requires
        workers_nodup(s),
    ensures
        workers_nodup(drop_res(s, r)),
        forall|k: int| 0 <= k < drop_res(s, r).len() ==> binding_in(s, #[trigger] drop_res(s, r)[k]),
        forall|k: int| 0 <= k < drop_res(s, r).len() ==> (#[trigger] drop_res(s, r)[k]).resource != r,
    decreases s.len(),
{
    if s.len() > 0 {
        let s0 = s.drop_last();
        assert(workers_nodup(s0));
        lemma_drop_res_props(s0, r);
        let k0 = drop_res(s0, r);
        let k1 = drop_res(s, r);
        if s.last().resource != r {
            assert(k1 == k0.push(s.last()));
        }
        assert forall|k: int| 0 <= k < k1.len() implies binding_in(s, k1[k]) by {
            if k < k0.len() {
                assert(binding_in(s0, k0[k]));
                let a = choose|a: int| 0 <= a < s0.len() && s0[a] == k0[k];
                assert(s[a] == s0[a]);
                assert(s[a] == k1[k]);
            } else {
                assert(s[s.len() - 1] == k1[k]);
            }
        }
        if s.last().resource != r {
            assert forall|i: int, j: int| 0 <= i < j < k1.len() implies k1[i].worker
                != k1[j].worker by {
                if j == k1.len() - 1 {
                    assert(binding_in(s0, k0[i]));
                    let a = choose|a: int| 0 <= a < s0.len() && s0[a] == k0[i];
                    assert(s[a] == s0[a]);
                    assert(s[a].worker != s.last().worker);
                }
            }
        }
    }
}

/// Losing a resource never raises another resource's load, and leaves the
/// lost resource with no binding at all.
proof fn lemma_count_drop_res(s: Seq<Binding>, r: u64, q: u64)
    ensures
        count_res(drop_res(s, r), q) <= count_res(s, q),
        count_res(drop_res(s, r), r) == 0,
    decreases s.len(),
{
    if s.len() > 0 {
        let s0 = s.drop_last();
        lemma_count_drop_res(s0, r, q);
        if s.last().resource != r {
            assert(drop_res(s, r) == drop_res(s0, r).push(s.last()));
            assert(drop_res(s0, r).push(s.last()).drop_last() =~= drop_res(s0, r));
        }
    }
}

/// Unfolds `drop_worker` one step along a prefix of `s`.
proof fn lemma_drop_worker_take_step(s: Seq<Binding>, w: u64, i: int)
    requires
        0 <= i < s.len(),
    ensures
        s[i].worker == w ==> drop_worker(s.take(i + 1), w) == drop_worker(s.take(i), w),
        s[i].worker != w ==> drop_worker(s.take(i + 1), w) == drop_worker(s.take(i), w).push(s[i]),
{
    assert(s.take(i + 1).drop_last() =~= s.take(i));
    assert(s.take(i + 1).last() == s[i]);
}

/// Unfolds `drop_tag` one step along a prefix of `s`.
proof fn lemma_drop_tag_take_step(s: Seq<u64>, x: u64, i: int)
    requires
        0 <= i < s.len(),
    ensures
        s[i] == x ==> drop_tag(s.take(i + 1), x) == drop_tag(s.take(i), x),
        s[i] != x ==> drop_tag(s.take(i + 1), x) == drop_tag(s.take(i), x).push(s[i]),
{
    assert(s.take(i + 1).drop_last() =~= s.take(i));
    assert(s.take(i + 1).last() == s[i]);
}

/// Unfolds `drop_depot` one step along a prefix of `ds`.
proof fn lemma_drop_depot_take_step(ds: Seq<DepotRecord>, t: u64, i: int)
    requires
        0 <= i < ds.len(),
    ensures
        ds[i].depot == t ==> drop_depot(ds.take(i + 1), t) == drop_depot(ds.take(i), t),
        ds[i].depot != t ==> drop_depot(ds.take(i + 1), t) == drop_depot(ds.take(i), t).push(
            ds[i],
        ),
{
    assert(ds.take(i + 1).drop_last() =~= ds.take(i));
    assert(ds.take(i + 1).last() == ds[i]);
}

/// Dropping a worker keeps the rest pairwise distinct, every survivor
/// stood in `s`, no survivor is `w`, and no resource's load grows.
proof fn lemma_drop_worker_props(s: Seq<Binding>, w: u64)
    requires
        workers_nodup(s),
    ensures
        workers_nodup(drop_worker(s, w)),
        forall|k: int|
            0 <= k < drop_worker(s, w).len() ==> binding_in(s, #[trigger] drop_worker(s, w)[k]),
        forall|k: int|
            0 <= k < drop_worker(s, w).len() ==> (#[trigger] drop_worker(s, w)[k]).worker != w,
        forall|q: u64| count_res(drop_worker(s, w), q) <= count_res(s, q),
    decreases s.len(),
{
    if s.len() > 0 {
        let s0 = s.drop_last();
        assert(workers_nodup(s0));
        lemma_drop_worker_props(s0, w);
        let k0 = drop_worker(s0, w);
        let k1 = drop_worker(s, w);
        if s.last().worker != w {
            assert(k1 == k0.push(s.last()));
            assert forall|q: u64| count_res(k1, q) <= count_res(s, q) by {
                assert(k0.push(s.last()).drop_last() =~= k0);
                assert(k1.last() == s.last());
                assert(count_res(k1, q) == count_res(k0, q) + if s.last().resource == q {
                    1nat
                } else {
                    0nat
                });
                assert(count_res(k0, q) <= count_res(s0, q));
            }
        } else {
            assert forall|q: u64| count_res(k1, q) <= count_res(s, q) by {
                assert(k1 == k0);
                assert(count_res(k0, q) <= count_res(s0, q));
                assert(count_res(s0, q) <= count_res(s, q));
            }
        }
        assert forall|k: int| 0 <= k < k1.len() implies binding_in(s, k1[k]) by {
            if k < k0.len() {
                assert(binding_in(s0, k0[k]));
                let a = choose|a: int| 0 <= a < s0.len() && s0[a] == k0[k];
                assert(s[a] == s0[a]);
            } else {
                assert(s[s.len() - 1] == k1[k]);
            }
        }
        if s.last().worker != w {
            assert forall|i: int, j: int| 0 <= i < j < k1.len() implies k1[i].worker
                != k1[j].worker by {
                if j == k1.len() - 1 {
                    assert(binding_in(s0, k0[i]));
                    let a = choose|a: int| 0 <= a < s0.len() && s0[a] == k0[i];
                    assert(s[a] == s0[a]);
                    assert(s[a].worker != s.last().worker);
                }
            }
        }
    }
}

/// Dropping an identity from a duplicate-free list keeps it
/// duplicate-free; every survivor stood in the list and none is `x`.
proof fn lemma_drop_tag_props(s: Seq<u64>, x: u64)
    requires
        nodup_u64(s),
    ensures
        nodup_u64(drop_tag(s, x)),
        forall|k: int| 0 <= k < drop_tag(s, x).len() ==> s.contains(#[trigger] drop_tag(s, x)[k]),
        forall|k: int| 0 <= k < drop_tag(s, x).len() ==> #[trigger] drop_tag(s, x)[k] != x,
    decreases s.len(),
{
    if s.len() > 0 {
        let s0 = s.drop_last();
        assert(nodup_u64(s0));
        lemma_drop_tag_props(s0, x);
        let k0 = drop_tag(s0, x);
        let k1 = drop_tag(s, x);
        assert forall|k: int| 0 <= k < k1.len() implies s.contains(k1[k]) by {
            if k < k0.len() {
                assert(s0.contains(k0[k]));
                let a = choose|a: int| 0 <= a < s0.len() && s0[a] == k0[k];
                assert(s[a] == s0[a]);
            } else {
                assert(s[s.len() - 1] == k1[k]);
            }
        }
        if s.last() != x {
            assert forall|i: int, j: int| 0 <= i < j < k1.len() implies k1[i] != k1[j] by {
                if j == k1.len() - 1 {
                    assert(s0.contains(k0[i]));
                    let a = choose|a: int| 0 <= a < s0.len() && s0[a] == k0[i];
                    assert(s[a] == s0[a]);
                    assert(s[a] != s.last());
                }
            }
        }
    }
}

/// Dropping a depot record keeps the rest uniquely keyed, every survivor
/// stood in the list, and none carries key `t`.
proof fn lemma_drop_depot_props(ds: Seq<DepotRecord>, t: u64)
    requires
        depots_nodup(ds),
    ensures
        depots_nodup(drop_depot(ds, t)),
        forall|k: int| 0 <= k < drop_depot(ds, t).len() ==> ds.contains(#[trigger] drop_depot(ds, t)[k]),
        forall|k: int| 0 <= k < drop_depot(ds, t).len() ==> (#[trigger] drop_depot(ds, t)[k]).depot != t,
    decreases ds.len(),
{
    if ds.len() > 0 {
        let s0 = ds.drop_last();
        assert(depots_nodup(s0));
        lemma_drop_depot_props(s0, t);
        let k0 = drop_depot(s0, t);
        let k1 = drop_depot(ds, t);
        assert forall|k: int| 0 <= k < k1.len() implies ds.contains(k1[k]) by {
            if k < k0.len() {
                assert(s0.contains(k0[k]));
                let a = choose|a: int| 0 <= a < s0.len() && s0[a] == k0[k];
                assert(ds[a] == s0[a]);
            } else {
                assert(ds[ds.len() - 1] == k1[k]);
            }
        }
        if ds.last().depot != t {
            assert forall|i: int, j: int| 0 <= i < j < k1.len() implies k1[i].depot
                != k1[j].depot by {
                if j == k1.len() - 1 {
                    assert(s0.contains(k0[i]));
                    let a = choose|a: int| 0 <= a < s0.len() && s0[a] == k0[i];
                    assert(ds[a] == s0[a]);
                    assert(ds[a].depot != ds.last().depot);
                }
            }
        }
    }
}

/// A worker bound to `r` stands among the workers released for `r`.
proof fn lemma_workers_of_contains(s: Seq<Binding>, r: u64, w: u64)
    requires
        binds_to(s, w, r),
    ensures
        workers_of(s, r).contains(w),
    decreases s.len(),
{
    let a = choose|a: int| 0 <= a < s.len() && s[a].worker == w && s[a].resource == r;
    if a == s.len() - 1 {
        assert(workers_of(s, r).last() == w);
    } else {
        assert(s.drop_last()[a] == s[a]);
        lemma_workers_of_contains(s.drop_last(), r, w);
        let k = choose|k: int|
            0 <= k < workers_of(s.drop_last(), r).len() && workers_of(s.drop_last(), r)[k] == w;
        assert(workers_of(s, r)[k] == w);
    }
}

/// A binding on a different resource survives a release.
proof fn lemma_drop_res_keeps(s: Seq<Binding>, r0: u64, w: u64, r: u64)
    requires
        binds_to(s, w, r),
        r != r0,
    ensures
        binds_to(drop_res(s, r0), w, r),
    decreases s.len(),
{
    let a = choose|a: int| 0 <= a < s.len() && s[a].worker == w && s[a].resource == r;
    if a == s.len() - 1 {
        assert(drop_res(s, r0).last() == s[a]);
    } else {
        assert(s.drop_last()[a] == s[a]);
        lemma_drop_res_keeps(s.drop_last(), r0, w, r);
        let k0 = drop_res(s.drop_last(), r0);
        let k = choose|k: int| 0 <= k < k0.len() && k0[k].worker == w && k0[k].resource == r;
        assert(drop_res(s, r0)[k] == k0[k]);
    }
}

/// A worker already free stays free through any cascade of releases.
proof fn lemma_release_all_free_monotone(v: TableView, rs: Seq<u64>, w: u64)
    requires
        v.free.contains(w),
    ensures
        release_all(v, rs).free.contains(w),
    decreases rs.len(),
{
    if rs.len() > 0 {
        let v1 = release_one(v, rs[0]);
        let i = choose|i: int| 0 <= i < v.free.len() && v.free[i] == w;
        assert(v1.free[i] == w);
        lemma_release_all_free_monotone(v1, rs.drop_first(), w);
    }
}

/// A cascade of releases never raises any resource's load.
proof fn lemma_release_all_count(v: TableView, rs: Seq<u64>, q: u64)
    ensures
        count_res(release_all(v, rs).bound, q) <= count_res(v.bound, q),
    decreases rs.len(),
{
    if rs.len() > 0 {
        let v1 = release_one(v, rs[0]);
        lemma_count_drop_res(v.bound, rs[0], q);
        lemma_release_all_count(v1, rs.drop_first(), q);
    }
}

/// After releasing every resource in `rs`, a resource listed there has no
/// binding left.
proof fn lemma_release_all_clears(v: TableView, rs: Seq<u64>, r: u64)
    requires
        rs.contains(r),
    ensures
        count_res(release_all(v, rs).bound, r) == 0,
    decreases rs.len(),
{
    let v1 = release_one(v, rs[0]);
    if rs[0] == r {
        lemma_count_drop_res(v.bound, r, r);
        lemma_release_all_count(v1, rs.drop_first(), r);
    } else {
        let i = choose|i: int| 0 <= i < rs.len() && rs[i] == r;
        assert(rs.drop_first()[i - 1] == r);
        lemma_release_all_clears(v1, rs.drop_first(), r);
    }
}

/// A worker bound to a released resource ends up free.
proof fn lemma_release_all_frees_bound(v: TableView, rs: Seq<u64>, w: u64, r: u64)
    requires
        binds_to(v.bound, w, r),
        rs.contains(r),
    ensures
        release_all(v, rs).free.contains(w),
    decreases rs.len(),
{
    let v1 = release_one(v, rs[0]);
    if rs[0] == r {
        lemma_workers_of_contains(v.bound, r, w);
        let k = choose|k: int|
            0 <= k < workers_of(v.bound, r).len() && workers_of(v.bound, r)[k] == w;
        assert(v1.free[v.free.len() + k] == w);
        lemma_release_all_free_monotone(v1, rs.drop_first(), w);
    } else {
        lemma_drop_res_keeps(v.bound, rs[0], w, r);
        let i = choose|i: int| 0 <= i < rs.len() && rs[i] == r;
        assert(rs.drop_first()[i - 1] == r);
        lemma_release_all_frees_bound(v1, rs.drop_first(), w, r);
    }
}

impl BindingTable {
    /// A resource node vanishes: every worker bound to it returns to the
    /// free set, in binding order, and its bindings disappear. Idempotent:
    /// a resource with no binding leaves the table unchanged.
    pub fn release_resource(&mut self, r: u64)
        requires
            old(self).wf(),
        ensures
            final(self).wf(),
            final(self)@ == release_one(old(self)@, r),
            final(self)@.free == old(self)@.free + workers_of(old(self)@.bound, r),
            final(self)@.bound == drop_res(old(self)@.bound, r),
            final(self)@.depots == old(self)@.depots,
            final(self)@.free.len() == old(self)@.free.len() + count_res(old(self)@.bound, r),
            count_res(final(self)@.bound, r) == 0,
    {
        let ghost s = self@.bound;
        let ghost f0 = self@.free;
        let mut kept: Vec<Binding> = Vec::new();
        let mut i: usize = 0;
        while i < self.bindings.len()
            invariant
                0 <= i <= s.len(),
                self@.bound == s,
                self@.depots == old(self)@.depots,
                kept@ == drop_res(s.take(i as int), r),
                self@.free == f0 + workers_of(s.take(i as int), r),
            decreases s.len() - i,
        {
            let b = self.bindings[i];
            proof {
                lemma_release_take_step(s, r, i as int);
            }
            if b.resource != r {
                kept.push(b);
            } else {
                self.free_workers.push(b.worker);
                proof {
                    assert(f0 + workers_of(s.take(i as int), r).push(b.worker) =~= (f0
                        + workers_of(s.take(i as int), r)).push(b.worker));
                }
            }
            i += 1;
        }
        proof {
            assert(s.take(s.len() as int) =~= s);
        }
        self.bindings = kept;
        proof {
            let rel = workers_of(s, r);
            let kseq = drop_res(s, r);
            lemma_workers_of_props(s, r);
            lemma_drop_res_props(s, r);
            let f1 = f0 + rel;
            assert forall|i2: int, j2: int| 0 <= i2 < j2 < f1.len() implies f1[i2] != f1[j2] by {
                if j2 < f0.len() {
                } else if i2 >= f0.len() {
                    assert(rel[i2 - f0.len()] != rel[j2 - f0.len()]);
                } else {
                    let k = j2 - f0.len();
                    assert(binds_to(s, rel[k], r));
                    let a = choose|a: int|
                        0 <= a < s.len() && s[a].worker == rel[k] && s[a].resource == r;
                    assert(f0[i2] != s[a].worker);
                }
            }
            assert forall|i2: int, j2: int|
                0 <= i2 < f1.len() && 0 <= j2 < kseq.len() implies f1[i2]
                != kseq[j2].worker by {
                assert(binding_in(s, kseq[j2]));
                let a = choose|a: int| 0 <= a < s.len() && s[a] == kseq[j2];
                if i2 < f0.len() {
                    assert(f0[i2] != s[a].worker);
                } else {
                    let k = i2 - f0.len();
                    assert(binds_to(s, rel[k], r));
                    let c = choose|c: int|
                        0 <= c < s.len() && s[c].worker == rel[k] && s[c].resource == r;
                    assert(s[a].resource != r);
                    if a != c {
                        assert(s[a].worker != s[c].worker);
                    }
                }
            }
            assert forall|q: u64| count_res(kseq, q) <= RESOURCE_CAPACITY by {
                lemma_count_drop_res(s, r, q);
                assert(count_res(s, q) <= RESOURCE_CAPACITY);
            }
            lemma_count_drop_res(s, r, r);
            assert(final(self)@ =~= release_one(old(self)@, r));
        }
    }

    /// A depot's expansion collapses: release every resource in the list,
    /// left to right. Afterwards no listed resource keeps a binding, every
    /// worker that was bound to one of them is free, and nobody already
    /// free was lost.
    pub fn release_expansion(&mut self, resources: &Vec<u64>)
        requires
            old(self).wf(),
        ensures
            final(self).wf(),
            final(self)@ == release_all(old(self)@, resources@),
            final(self)@.depots == old(self)@.depots,
            forall|r: u64|
                resources@.contains(r) ==> count_res(final(self)@.bound, r) == 0,
            forall|w: u64, r: u64|
                binds_to(old(self)@.bound, w, r) && resources@.contains(r)
                    ==> final(self)@.free.contains(w),
            forall|w: u64| old(self)@.free.contains(w) ==> final(self)@.free.contains(w),
    {
        let ghost rs = resources@;
        proof {
            assert(rs.skip(0) =~= rs);
        }
        let mut i: usize = 0;
        while i < resources.len()
            invariant
                self.wf(),
                0 <= i <= rs.len(),
                resources@ == rs,
                release_all(old(self)@, rs) == release_all(self@, rs.skip(i as int)),
                self@.depots == old(self)@.depots,
            decreases rs.len() - i,
        {
            let ghost pre = self@;
            let r = resources[i];
            self.release_resource(r);
            proof {
                assert(rs.skip(i as int).drop_first() =~= rs.skip(i as int + 1));
                assert(rs.skip(i as int)[0] == rs[i as int]);
                assert(release_all(pre, rs.skip(i as int)) == release_all(
                    release_one(pre, r),
                    rs.skip(i as int + 1),
                ));
            }
            i += 1;
        }
        proof {
            assert(rs.skip(rs.len() as int) =~= Seq::<u64>::empty());
            assert(release_all(self@, Seq::<u64>::empty()) == self@);
            assert forall|r: u64| rs.contains(r) implies count_res(final(self)@.bound, r)
                == 0 by {
                lemma_release_all_clears(old(self)@, rs, r);
            }
            assert forall|w: u64, r: u64|
                binds_to(old(self)@.bound, w, r) && rs.contains(r) implies final(self)@.free.contains(w) by {
                lemma_release_all_frees_bound(old(self)@, rs, w, r);
            }
            assert forall|w: u64| old(self)@.free.contains(w) implies final(self)@.free.contains(w) by {
                lemma_release_all_free_monotone(old(self)@, rs, w);
            }
        }
    }

    /// A bound worker dies: its binding and its membership at its resource
    /// disappear; nothing else moves. Idempotent for an unknown worker.
    pub fn unbind_worker(&mut self, w: u64)
        requires
            old(self).wf(),
        ensures
            final(self).wf(),
            final(self)@.bound == drop_worker(old(self)@.bound, w),
            final(self)@.free == old(self)@.free,
            final(self)@.depots == old(self)@.depots,
            !has_worker(final(self)@.bound, w),
    {
        let ghost s = self@.bound;
        let mut kept: Vec<Binding> = Vec::new();
        let mut i: usize = 0;
        while i < self.bindings.len()
            invariant
                0 <= i <= s.len(),
                self@.bound == s,
                self@.free == old(self)@.free,
                self@.depots == old(self)@.depots,
                kept@ == drop_worker(s.take(i as int), w),
            decreases s.len() - i,
        {
            let b = self.bindings[i];
            proof {
                lemma_drop_worker_take_step(s, w, i as int);
            }
            if b.worker != w {
                kept.push(b);
            }
            i += 1;
        }
        proof {
            assert(s.take(s.len() as int) =~= s);
        }
        self.bindings = kept;
        proof {
            let kseq = drop_worker(s, w);
            lemma_drop_worker_props(s, w);
            assert forall|i2: int, j2: int|
                0 <= i2 < final(self)@.free.len() && 0 <= j2 < kseq.len()
                implies final(self)@.free[i2] != kseq[j2].worker by {
                assert(binding_in(s, kseq[j2]));
                let a = choose|a: int| 0 <= a < s.len() && s[a] == kseq[j2];
                assert(old(self)@.free[i2] != s[a].worker);
            }
            assert(!has_worker(kseq, w)) by {
                if has_worker(kseq, w) {
                    let i3 = choose|i3: int| 0 <= i3 < kseq.len() && kseq[i3].worker == w;
                    assert(kseq[i3].worker != w);
                }
            }
            assert forall|q: u64| count_res(final(self)@.bound, q) <= RESOURCE_CAPACITY by {
                assert(count_res(drop_worker(s, w), q) <= count_res(s, q));
                assert(count_res(old(self)@.bound, q) <= RESOURCE_CAPACITY);
            }
        }
    }

    /// A free worker dies: it leaves the free set; nothing else moves.
    /// Idempotent for an unknown worker.
    pub fn remove_free_worker(&mut self, w: u64)
        requires
            old(self).wf(),
        ensures
            final(self).wf(),
            final(self)@.free == drop_tag(old(self)@.free, w),
            final(self)@.bound == old(self)@.bound,
            final(self)@.depots == old(self)@.depots,
            !final(self)@.free.contains(w),
    {
        let ghost s = self@.free;
        let mut kept: Vec<u64> = Vec::new();
        let mut i: usize = 0;
        while i < self.free_workers.len()
            invariant
                0 <= i <= s.len(),
                self@.free == s,
                self@.bound == old(self)@.bound,
                self@.depots == old(self)@.depots,
                kept@ == drop_tag(s.take(i as int), w),
            decreases s.len() - i,
        {
            let x = self.free_workers[i];
            proof {
                lemma_drop_tag_take_step(s, w, i as int);
            }
            if x != w {
                kept.push(x);
            }
            i += 1;
        }
        proof {
            assert(s.take(s.len() as int) =~= s);
        }
        self.free_workers = kept;
        proof {
            let kseq = drop_tag(s, w);
            lemma_drop_tag_props(s, w);
            assert forall|i2: int, j2: int|
                0 <= i2 < kseq.len() && 0 <= j2 < final(self)@.bound.len() implies kseq[i2]
                != final(self)@.bound[j2].worker by {
                let a = choose|a: int| 0 <= a < s.len() && s[a] == kseq[i2];
                assert(old(self)@.free[a] != old(self)@.bound[j2].worker);
            }
            assert(!kseq.contains(w)) by {
                if kseq.contains(w) {
                    let i3 = choose|i3: int| 0 <= i3 < kseq.len() && kseq[i3] == w;
                    assert(kseq[i3] != w);
                }
            }
        }
    }

    /// Finds the position of the depot record keyed `t`, if any.
    fn depot_index(&self, t: u64) -> (res: Option<usize>)
        ensures
            res matches Some(p) ==> p < self@.depots.len() && self@.depots[p as int].depot == t,
            res is None ==> forall|j: int| 0 <= j < self@.depots.len() ==> self@.depots[j].depot != t,
    {
        let mut i: usize = 0;
        while i < self.depots.len()
            invariant
                0 <= i <= self@.depots.len(),
                forall|j: int| 0 <= j < i ==> self@.depots[j].depot != t,
            decreases self@.depots.len() - i,
        {
            if self.depots[i].depot == t {
                return Some(i);
            }
            i += 1;
        }
        None
    }

    /// A depot record leaves the table (its key stops being known);
    /// bindings and free workers stay put.
    fn remove_depot_record(&mut self, t: u64)
        requires
            old(self).wf(),
        ensures
            final(self).wf(),
            final(self)@.depots == drop_depot(old(self)@.depots, t),
            final(self)@.free == old(self)@.free,
            final(self)@.bound == old(self)@.bound,
    {
        let ghost s = self@.depots;
        let mut kept: Vec<DepotRecord> = Vec::new();
        let mut i: usize = 0;
        while i < self.depots.len()
            invariant
                0 <= i <= s.len(),
                self@.depots == s,
                self@.free == old(self)@.free,
                self@.bound == old(self)@.bound,
                kept@ == drop_depot(s.take(i as int), t),
            decreases s.len() - i,
        {
            let d = self.depots[i];
            proof {
                lemma_drop_depot_take_step(s, t, i as int);
            }
            if d.depot != t {
                kept.push(d);
            }
            i += 1;
        }
        proof {
            assert(s.take(s.len() as int) =~= s);
        }
        self.depots = kept;
        proof {
            lemma_drop_depot_props(s, t);
        }
    }

    /// Finds the first expansion whose recorded depot identity is `depot`.
    fn find_expansion_for(exps: &Vec<Expansion>, depot: u64) -> (res: Option<usize>)
        ensures
            res matches Some(idx) ==> idx < exps@.len() && exps@[idx as int].depot == Some(depot)
                && (forall|j: int| 0 <= j < idx ==> (#[trigger] exps@[j]).depot != Some(depot)),
            res is None ==> forall|j: int|
                0 <= j < exps@.len() ==> (#[trigger] exps@[j]).depot != Some(depot),
    {
        let mut j: usize = 0;
        while j < exps.len()
            invariant
                0 <= j <= exps@.len(),
                forall|k: int| 0 <= k < j ==> (#[trigger] exps@[k]).depot != Some(depot),
            decreases exps@.len() - j,
        {
            let e = &exps[j];
            if let Some(d) = e.depot {
                if d == depot {
                    return Some(j);
                }
            }
            j += 1;
        }
        None
    }

    /// A depot finished building: match it against the expansion whose
    /// recorded depot identity it is, and record `depot → expansion index`.
    /// Returns the index recorded, or `None` when no expansion claims the
    /// depot. Recording the same depot again overwrites its entry.
    pub fn on_depot_complete(&mut self, depot: u64, exps: &Vec<Expansion>) -> (res: Option<usize>)
        requires
            old(self).wf(),
        ensures
            final(self).wf(),
            final(self)@.free == old(self)@.free,
            final(self)@.bound == old(self)@.bound,
            res is None ==> (forall|j: int|
                0 <= j < exps@.len() ==> (#[trigger] exps@[j]).depot != Some(depot)) && final(self)@.depots == old(self)@.depots,
            res matches Some(idx) ==> idx < exps@.len() && exps@[idx as int].depot == Some(depot)
                && (forall|j: int| 0 <= j < idx ==> (#[trigger] exps@[j]).depot != Some(depot)),
            res matches Some(idx) ==> (!has_depot_key(old(self)@.depots, depot)
                ==> final(self)@.depots == old(self)@.depots.push(
                (DepotRecord { depot, expansion: idx }),
            )),
            res matches Some(idx) ==> (has_depot_key(old(self)@.depots, depot) ==> exists|p: int|
                0 <= p < old(self)@.depots.len() && old(self)@.depots[p].depot == depot
                    && final(self)@.depots == old(self)@.depots.update(
                    p,
                    (DepotRecord { depot, expansion: idx }),
                )),
    {
        let found = Self::find_expansion_for(exps, depot);
        let idx = match found {
            Some(v) => v,
            None => {
                return None;
            },
        };
        let rec = DepotRecord { depot, expansion: idx };
        match self.depot_index(depot) {
            Some(p) => {
                self.depots.set(p, rec);
                proof {
                    let ds0 = old(self)@.depots;
                    let ds1 = final(self)@.depots;
                    assert(ds1 == ds0.update(p as int, rec));
                    assert forall|i2: int, j2: int| 0 <= i2 < j2 < ds1.len() implies ds1[i2].depot
                        != ds1[j2].depot by {
                        assert(ds0[i2].depot == ds1[i2].depot || i2 == p);
                        assert(ds0[j2].depot == ds1[j2].depot || j2 == p);
                    }
                }
            },
            None => {
                self.depots.push(rec);
                proof {
                    let ds0 = old(self)@.depots;
                    let ds1 = final(self)@.depots;
                    assert forall|i2: int, j2: int| 0 <= i2 < j2 < ds1.len() implies ds1[i2].depot
                        != ds1[j2].depot by {
                        if j2 == ds1.len() - 1 {
                            assert(ds0[i2].depot != depot);
                        }
                    }
                }
            },
        }
        Some(idx)
    }

    /// An entity was destroyed. Own side: a known depot cascades a release
    /// of its whole expansion; a bound worker loses its binding; a free
    /// worker leaves the free set; anything else is reported unhandled.
    /// Neutral side: the entity is taken for a depleted resource and
    /// released. All branches tolerate already-absent entries.
    pub fn on_unit_destroyed(&mut self, tag: u64, alliance: Alliance, exps: &Vec<Expansion>) -> (o:
        DestroyOutcome)
        requires
            old(self).wf(),
        ensures
            final(self).wf(),
            alliance == Alliance::Other ==> o == DestroyOutcome::Ignored && final(self)@ == old(self)@,
            alliance == Alliance::Neutral ==> o == DestroyOutcome::ResourceReleased && final(self)@
                == release_one(old(self)@, tag),
            alliance == Alliance::Own && has_depot_key(old(self)@.depots, tag) ==> o
                == DestroyOutcome::Cascade && final(self)@.depots == drop_depot(
                old(self)@.depots,
                tag,
            ) && (forall|p: int|
                0 <= p < old(self)@.depots.len() && (#[trigger] old(self)@.depots[p]).depot == tag
                    ==> cascade_effect(old(self)@, exps@, p, final(self)@)),
            alliance == Alliance::Own && !has_depot_key(old(self)@.depots, tag) && has_worker(
                old(self)@.bound,
                tag,
            ) ==> o == DestroyOutcome::WorkerUnbound && final(self)@.bound == drop_worker(
                old(self)@.bound,
                tag,
            ) && final(self)@.free == old(self)@.free && final(self)@.depots == old(self)@.depots,
            alliance == Alliance::Own && !has_depot_key(old(self)@.depots, tag) && !has_worker(
                old(self)@.bound,
                tag,
            ) && old(self)@.free.contains(tag) ==> o == DestroyOutcome::FreeWorkerRemoved && final(self)@.free == drop_tag(old(self)@.free, tag) && final(self)@.bound == old(self)@.bound
                && final(self)@.depots == old(self)@.depots,
            alliance == Alliance::Own && !has_depot_key(old(self)@.depots, tag) && !has_worker(
                old(self)@.bound,
                tag,
            ) && !old(self)@.free.contains(tag) ==> o == DestroyOutcome::Unknown && final(self)@
                == old(self)@,
    {
        match alliance {
            Alliance::Own => {
                match self.depot_index(tag) {
                    Some(p) => {
                        let ghost v0 = self@;
                        let idx = self.depots[p].expansion;
                        self.remove_depot_record(tag);
                        if idx < exps.len() {
                            self.release_expansion(&exps[idx].resources);
                        }
                        proof {
                            assert forall|p2: int|
                                0 <= p2 < v0.depots.len() && (#[trigger] v0.depots[p2]).depot
                                    == tag implies cascade_effect(v0, exps@, p2, final(self)@) by {
                                assert(p2 == p as int);
                            }
                        }
                        DestroyOutcome::Cascade
                    },
                    None => {
                        if self.is_bound_worker(tag) {
                            self.unbind_worker(tag);
                            DestroyOutcome::WorkerUnbound
                        } else if self.is_free_worker(tag) {
                            self.remove_free_worker(tag);
                            DestroyOutcome::FreeWorkerRemoved
                        } else {
                            DestroyOutcome::Unknown
                        }
                    },
                }
            },
            Alliance::Neutral => {
                self.release_resource(tag);
                DestroyOutcome::ResourceReleased
            },
            Alliance::Other => DestroyOutcome::Ignored,
        }
    }
}

// ---------------------------------------------------------------------
// Laws of the binding table
// ---------------------------------------------------------------------

/// Capacity law: in a well-formed table, no resource ever has more than
/// `RESOURCE_CAPACITY` workers bound to it.
pub proof fn lemma_capacity(v: TableView, r: u64)
    requires
        v.wf(),
    ensures
        workers_of(v.bound, r).len() <= RESOURCE_CAPACITY,
{
    lemma_workers_of_props(v.bound, r);
}

/// Partition law: in a well-formed table, no worker is both free and
/// bound, and the bound workers are exactly the union of the per-resource
/// worker sets.
pub proof fn lemma_partition(v: TableView)
    requires
        v.wf(),
    ensures
        forall|w: u64| !(v.free.contains(w) && has_worker(v.bound, w)),
        forall|w: u64| #[trigger] has_worker(v.bound, w) <==> exists|r: u64| binds_to(v.bound, w, r),
{
    assert forall|w: u64| !(v.free.contains(w) && has_worker(v.bound, w)) by {
        if v.free.contains(w) && has_worker(v.bound, w) {
            let i = choose|i: int| 0 <= i < v.free.len() && v.free[i] == w;
            let j = choose|j: int| 0 <= j < v.bound.len() && v.bound[j].worker == w;
            assert(v.free[i] != v.bound[j].worker);
        }
    }
    assert forall|w: u64| #[trigger] has_worker(v.bound, w) implies exists|r: u64|
        binds_to(v.bound, w, r) by {
        let j = choose|j: int| 0 <= j < v.bound.len() && v.bound[j].worker == w;
        assert(binds_to(v.bound, w, v.bound[j].resource));
    }
    assert forall|w: u64| (exists|r: u64| binds_to(v.bound, w, r)) implies has_worker(
        v.bound,
        w,
    ) by {
        let r = choose|r: u64| binds_to(v.bound, w, r);
        let j = choose|j: int| 0 <= j < v.bound.len() && v.bound[j].worker == w
            && v.bound[j].resource == r;
        assert(0 <= j < v.bound.len() && v.bound[j].worker == w);
    }
}

} // verus!
