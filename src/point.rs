//! Fixed-point 2D points and the exact predicates built on them.
use vstd::prelude::*;

verus! {

/// Grid units per unit of length: coordinates carry ten fractional bits.
pub const UNIT: i64 = 1024;

/// Largest magnitude a coordinate may have. Keeping coordinates within this bound
/// keeps every product the predicates form within 128 bits.
pub const COORD_LIMIT: i64 = 1048576;

/// A point, or a vector, on the fixed-point grid.
#[derive(Clone, Copy, Debug, PartialEq, Eq, Structural)]
pub struct Point {
    pub x: i64,
    pub y: i64,
}

/// Both coordinates lie within `COORD_LIMIT`.
pub open spec fn in_range(p: Point) -> bool {
    -COORD_LIMIT <= p.x <= COORD_LIMIT && -COORD_LIMIT <= p.y <= COORD_LIMIT
}

/// Every point of the sequence is in range.
pub open spec fn all_in_range(s: Seq<Point>) -> bool {
    forall|i: int| 0 <= i < s.len() ==> in_range(#[trigger] s[i])
}

/// Twice the signed area of the triangle `a, b, c`: positive when `a, b, c` turn left.
pub open spec fn orient(a: Point, b: Point, c: Point) -> int {
    (b.x - a.x) * (c.y - a.y) - (b.y - a.y) * (c.x - a.x)
}

/// `b - a` as a vector over the integers.
pub open spec fn diff(a: Point, b: Point) -> (int, int) {
    (b.x - a.x, b.y - a.y)
}

pub proof fn lemma_mul_bounded(a: int, b: int, ka: int, kb: int)
    requires
        -ka <= a <= ka,
        -kb <= b <= kb,
    ensures
        -(ka * kb) <= a * b <= ka * kb,
{
    assert(-(ka * kb) <= a * b <= ka * kb) by (nonlinear_arith)
        requires
            -ka <= a <= ka,
            -kb <= b <= kb,
    ;
}

impl Point {
    pub fn new(x: i64, y: i64) -> (r: Point)
        ensures
            r.x == x,
            r.y == y,
    {
        Point { x, y }
    }
}

/// Exact orientation of `a, b, c`: twice the signed area of the triangle they form.
pub fn orientation(a: Point, b: Point, c: Point) -> (r: i64)
    requires
        in_range(a),
        in_range(b),
        in_range(c),
    ensures
        r == orient(a, b, c),
{
    let k = 2 * COORD_LIMIT;
    proof {
        lemma_mul_bounded(b.x - a.x, c.y - a.y, k as int, k as int);
        lemma_mul_bounded(b.y - a.y, c.x - a.x, k as int, k as int);
    }
    (b.x - a.x) * (c.y - a.y) - (b.y - a.y) * (c.x - a.x)
}

/// The squared distance between two points.
pub open spec fn dist2(a: Point, b: Point) -> int {
    (b.x - a.x) * (b.x - a.x) + (b.y - a.y) * (b.y - a.y)
}

/// The squared distance between two points.
pub fn distance_squared(a: Point, b: Point) -> (r: i64)
    requires
        in_range(a),
        in_range(b),
    ensures
        r == dist2(a, b),
        r >= 0,
{
    proof {
        lemma_mul_bounded(b.x - a.x, b.x - a.x, 2097152, 2097152);
        lemma_mul_bounded(b.y - a.y, b.y - a.y, 2097152, 2097152);
        assert(dist2(a, b) >= 0) by (nonlinear_arith);
    }
    (b.x - a.x) * (b.x - a.x) + (b.y - a.y) * (b.y - a.y)
}

/// `num / den` lies strictly between 0 and 1.
pub open spec fn strictly_inside_unit(num: int, den: int) -> bool {
    if den > 0 {
        0 < num < den
    } else {
        den < num < 0
    }
}

/// The segments `a0 a1` and `b0 b1` cross at a point interior to both: the
/// parameters of the crossing along each segment lie strictly between 0 and 1.
/// Parallel segments never cross.
pub open spec fn segments_cross(a0: Point, a1: Point, b0: Point, b1: Point) -> bool {
    let d = (b1.y - b0.y) * (a1.x - a0.x) - (b1.x - b0.x) * (a1.y - a0.y);
    let na = (b1.x - b0.x) * (a0.y - b0.y) - (b1.y - b0.y) * (a0.x - b0.x);
    let nb = (a1.x - a0.x) * (a0.y - b0.y) - (a1.y - a0.y) * (a0.x - b0.x);
    d != 0 && strictly_inside_unit(na, d) && strictly_inside_unit(nb, d)
}

/// Bounds a difference of two products of coordinate differences.
proof fn lemma_det_bounded(a: int, b: int, c: int, d: int)
    requires
        -2 * COORD_LIMIT <= a <= 2 * COORD_LIMIT,
        -2 * COORD_LIMIT <= b <= 2 * COORD_LIMIT,
        -2 * COORD_LIMIT <= c <= 2 * COORD_LIMIT,
        -2 * COORD_LIMIT <= d <= 2 * COORD_LIMIT,
    ensures
        -4398046511104 <= a * b <= 4398046511104,
        -4398046511104 <= c * d <= 4398046511104,
        -8796093022208 <= a * b - c * d <= 8796093022208,
{
    lemma_mul_bounded(a, b, 2097152, 2097152);
    lemma_mul_bounded(c, d, 2097152, 2097152);
}

/// Whether the segments `a0 a1` and `b0 b1` cross properly.
pub fn segments_intersect(a0: Point, a1: Point, b0: Point, b1: Point) -> (r: bool)
    requires
        in_range(a0),
        in_range(a1),
        in_range(b0),
        in_range(b1),
    ensures
        r == segments_cross(a0, a1, b0, b1),
{
    proof {
        lemma_det_bounded(b1.y - b0.y, a1.x - a0.x, b1.x - b0.x, a1.y - a0.y);
        lemma_det_bounded(b1.x - b0.x, a0.y - b0.y, b1.y - b0.y, a0.x - b0.x);
        lemma_det_bounded(a1.x - a0.x, a0.y - b0.y, a1.y - a0.y, a0.x - b0.x);
    }
    let d = (b1.y - b0.y) * (a1.x - a0.x) - (b1.x - b0.x) * (a1.y - a0.y);
    if d == 0 {
        return false;
    }
    let na = (b1.x - b0.x) * (a0.y - b0.y) - (b1.y - b0.y) * (a0.x - b0.x);
    let nb = (a1.x - a0.x) * (a0.y - b0.y) - (a1.y - a0.y) * (a0.x - b0.x);
    if d > 0 {
        0 < na && na < d && 0 < nb && nb < d
    } else {
        d < na && na < 0 && d < nb && nb < 0
    }
}

/// The turn `a, b, c` is so slight that the edges `a b` and `b c` point the same way
/// to within a cosine of 0.99999. A zero-length edge has no direction and never counts.
pub open spec fn nearly_straight(a: Point, b: Point, c: Point) -> bool {
    let (ux, uy) = diff(a, b);
    let (vx, vy) = diff(b, c);
    let uu = ux * ux + uy * uy;
    let vv = vx * vx + vy * vy;
    let d = ux * vx + uy * vy;
    uu != 0 && vv != 0 && d > 0 && 10000000000 * (d * d) >= 9999800001 * (uu * vv)
}

/// Whether the turn `a, b, c` is nearly straight.
pub fn is_nearly_straight(a: Point, b: Point, c: Point) -> (r: bool)
    requires
        in_range(a),
        in_range(b),
        in_range(c),
    ensures
        r == nearly_straight(a, b, c),
{
    let ux = (b.x - a.x) as i128;
    let uy = (b.y - a.y) as i128;
    let vx = (c.x - b.x) as i128;
    let vy = (c.y - b.y) as i128;
    let ghost k: int = 2097152;
    proof {
        lemma_mul_bounded(ux as int, ux as int, k, k);
        lemma_mul_bounded(uy as int, uy as int, k, k);
        lemma_mul_bounded(vx as int, vx as int, k, k);
        lemma_mul_bounded(vy as int, vy as int, k, k);
        lemma_mul_bounded(ux as int, vx as int, k, k);
        lemma_mul_bounded(uy as int, vy as int, k, k);
    }
    let uu = ux * ux + uy * uy;
    let vv = vx * vx + vy * vy;
    let d = ux * vx + uy * vy;
    if uu == 0 || vv == 0 || d <= 0 {
        return false;
    }
    let ghost m: int = 2 * k * k;
    proof {
        assert(m == 8796093022208);
        assert(uu >= 0 && vv >= 0) by (nonlinear_arith)
            requires uu == ux * ux + uy * uy, vv == vx * vx + vy * vy;
        assert(uu * vv >= 0) by (nonlinear_arith)
            requires uu >= 0, vv >= 0;
        lemma_mul_bounded(d as int, d as int, 8796093022208, 8796093022208);
        lemma_mul_bounded(uu as int, vv as int, 8796093022208, 8796093022208);
    }
    let dd = d * d;
    let uv = uu * vv;
    proof {
        assert(0 <= dd <= 0x40_0000_0000_0000_0000_0000);
        assert(0 <= uv <= 0x40_0000_0000_0000_0000_0000);
        assert(10000000000 * dd <= 10000000000 * 0x40_0000_0000_0000_0000_0000) by (nonlinear_arith)
            requires 0 <= dd <= 0x40_0000_0000_0000_0000_0000;
        assert(9999800001 * uv <= 9999800001 * 0x40_0000_0000_0000_0000_0000) by (nonlinear_arith)
            requires 0 <= uv <= 0x40_0000_0000_0000_0000_0000;
    }
    10000000000 * dd >= 9999800001 * uv
}

} // verus!
