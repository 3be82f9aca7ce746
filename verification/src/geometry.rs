//! Fixed-point planar geometry: squared-distance comparisons, exactly as
//! the host engine makes them (strict `<` for "closer", strict `>` for
//! "further"), but on integer coordinates so every step is checked.

use vstd::prelude::*;

verus! {

/// Every coordinate, radius and travel step handled by the engine must
/// stay within this bound so that squared-distance arithmetic fits `i64`.
pub const COORD_LIMIT: i64 = 0x40_0000;

/// A point on the map in fixed-point coordinates.
#[derive(Clone, Copy, PartialEq, Eq, Structural, Debug)]
pub struct Point {
    pub x: i64,
    pub y: i64,
}

pub open spec fn pt_ok(p: Point) -> bool {
    &&& -COORD_LIMIT <= p.x <= COORD_LIMIT
    &&& -COORD_LIMIT <= p.y <= COORD_LIMIT
}

/// A non-negative length: a radius, a travel step, or a sum of a few.
pub open spec fn len_ok(d: i64) -> bool {
    0 <= d <= 8 * COORD_LIMIT
}

pub open spec fn dist_sq(a: Point, b: Point) -> int {
    (a.x - b.x) * (a.x - b.x) + (a.y - b.y) * (a.y - b.y)
}

/// The two points lie strictly closer than `d` to each other.
pub open spec fn spec_closer_than(a: Point, b: Point, d: int) -> bool {
    dist_sq(a, b) < d * d
}

/// The two points lie strictly further than `d` from each other.
pub open spec fn spec_further_than(a: Point, b: Point, d: int) -> bool {
    dist_sq(a, b) > d * d
}

proof fn lemma_square_bound(v: int, m: int)
    requires
        -m <= v <= m,
        0 <= m,
    ensures
        0 <= v * v <= m * m,
{
    assert(0 <= v * v <= m * m) by (nonlinear_arith)
        requires
            -m <= v <= m,
            0 <= m,
    ;
}

fn sq_dist(a: &Point, b: &Point) -> (r: i64)
    requires
        pt_ok(*a),
        pt_ok(*b),
    ensures
        r == dist_sq(*a, *b),
{
    let dx: i64 = a.x - b.x;
    let dy: i64 = a.y - b.y;
    proof {
        lemma_square_bound(dx as int, 2 * COORD_LIMIT);
        lemma_square_bound(dy as int, 2 * COORD_LIMIT);
    }
    dx * dx + dy * dy
}

/// Squared-distance comparison: strictly closer than `d`.
pub fn closer_than(a: &Point, b: &Point, d: i64) -> (r: bool)
    requires
        pt_ok(*a),
        pt_ok(*b),
        len_ok(d),
    ensures
        r == spec_closer_than(*a, *b, d as int),
{
    let ds: i64 = sq_dist(a, b);
    proof {
        lemma_square_bound(d as int, 8 * COORD_LIMIT);
    }
    ds < d * d
}

/// Squared-distance comparison: strictly further than `d`.
pub fn further_than(a: &Point, b: &Point, d: i64) -> (r: bool)
    requires
        pt_ok(*a),
        pt_ok(*b),
        len_ok(d),
    ensures
        r == spec_further_than(*a, *b, d as int),
{
    let ds: i64 = sq_dist(a, b);
    proof {
        lemma_square_bound(d as int, 8 * COORD_LIMIT);
    }
    ds > d * d
}

} // verus!
