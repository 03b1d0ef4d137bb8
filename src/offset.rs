//! Offsetting contours and outlining shapes.
use vstd::prelude::*;
use crate::error::ShapeError;
use crate::holed_polygon::HoledPolygon;
use crate::point::{Point, in_range, all_in_range, lemma_mul_bounded, COORD_LIMIT};
use crate::polygon::{Polygon, succ, pred, lemma_neighbors, verified, convex, ccw};
use crate::polyline::Polyline;
use crate::shape::{Config, Shape};

verus! {

/// `r` is the integer square root of `x`, rounded down.
pub open spec fn is_floor_sqrt(x: int, r: int) -> bool {
    0 <= r && r * r <= x < (r + 1) * (r + 1)
}

/// The integer square root of `x`, rounded down.
pub open spec fn floor_sqrt(x: int) -> int {
    choose|r: int| is_floor_sqrt(x, r)
}

proof fn lemma_floor_sqrt_unique(x: int, r: int)
    requires
        is_floor_sqrt(x, r),
    ensures
        floor_sqrt(x) == r,
{
    let s = floor_sqrt(x);
    assert(is_floor_sqrt(x, s));
    if s < r {
        assert((s + 1) * (s + 1) <= r * r) by (nonlinear_arith)
            requires 0 <= s, s + 1 <= r;
    } else if r < s {
        assert((r + 1) * (r + 1) <= s * s) by (nonlinear_arith)
            requires 0 <= r, r + 1 <= s;
    }
}

/// The integer square root of `x`, rounded down.
pub fn isqrt(x: u128) -> (r: u64)
    ensures
        is_floor_sqrt(x as int, r as int),
        r as int == floor_sqrt(x as int),
{
    let mut lo: u128 = 0;
    let mut hi: u128 = 0x1_0000_0000_0000_0000;
    assert(0x1_0000_0000_0000_0000int * 0x1_0000_0000_0000_0000int > u128::MAX);
    while hi - lo > 1
        invariant
            lo < hi <= 0x1_0000_0000_0000_0000,
            lo * lo <= x,
            x < hi * hi,
        decreases hi - lo,
    {
        let mid = lo + (hi - lo) / 2;
        assert(mid * mid <= 0xffff_ffff_ffff_ffff * 0xffff_ffff_ffff_ffff) by (nonlinear_arith)
            requires mid < 0x1_0000_0000_0000_0000;
        if mid * mid <= x {
            lo = mid;
        } else {
            hi = mid;
        }
    }
    assert(hi == lo + 1);
    proof {
        lemma_floor_sqrt_unique(x as int, lo as int);
    }
    lo as u64
}

/// `a / d` rounded to the nearest integer, halves rounded up, for `d > 0`.
pub open spec fn round_div(a: int, d: int) -> int {
    (2 * a + d) / (2 * d)
}

/// `a / d` rounded down.
pub(crate) fn floor_div(a: i128, d: i128) -> (r: i128)
    requires
        d > 0,
        a > i128::MIN,
    ensures
        r as int == a as int / d as int,
{
    if a >= 0 {
        a / d
    } else {
        let b = -a - 1;
        let q = b / d;
        proof {
            vstd::arithmetic::div_mod::lemma_fundamental_div_mod(b as int, d as int);
            let m = (b as int) % (d as int);
            assert(a as int == (-(q as int) - 1) * (d as int) + (d as int - m - 1)) by (nonlinear_arith)
                requires
                    b as int == (d as int) * (q as int) + m,
                    a as int == -(b as int) - 1;
            vstd::arithmetic::div_mod::lemma_fundamental_div_mod_converse_div(
                a as int,
                d as int,
                -(q as int) - 1,
                d as int - m - 1,
            );
        }
        -q - 1
    }
}

/// The corner at vertex `i` of the closed contour `s`, moved by `dist` along its
/// mitered left normal, so that the moved edges stay parallel to the input edges at
/// distance `dist`. With edge vectors `u` into the corner and `v` out of it, of lengths
/// `lu` and `lv`, the move is `dist * (lv * left(u) + lu * left(v)) / (lu * lv + u . v)`,
/// rounded to the grid. `None` when that denominator is not positive: the corner folds
/// back on itself, or an edge has no length.
pub open spec fn miter_point(s: Seq<Point>, i: int, dist: int) -> Option<(int, int)> {
    let n = s.len() as int;
    let p0 = s[pred(i, n)];
    let p1 = s[i];
    let p2 = s[succ(i, n)];
    let (ux, uy) = (p1.x - p0.x, p1.y - p0.y);
    let (vx, vy) = (p2.x - p1.x, p2.y - p1.y);
    let lu = floor_sqrt(ux * ux + uy * uy);
    let lv = floor_sqrt(vx * vx + vy * vy);
    let d = lu * lv + ux * vx + uy * vy;
    let wx = -(uy * lv) - vy * lu;
    let wy = ux * lv + vx * lu;
    if d <= 0 {
        None
    } else {
        Some((p1.x + round_div(dist * wx, d), p1.y + round_div(dist * wy, d)))
    }
}

/// The corner at vertex `i` has an offset point, and it lies in range.
pub open spec fn corner_ok(s: Seq<Point>, i: int, dist: int) -> bool {
    miter_point(s, i, dist) matches Some(q) && -COORD_LIMIT <= q.0 <= COORD_LIMIT && -COORD_LIMIT <= q.1
        <= COORD_LIMIT
}

/// `r` holds the offset point of every corner of `s`, in order, starting from the corner
/// at point 1: `r[k]` is the image of corner `k + 1` (modulo the length).
pub open spec fn offset_of(s: Seq<Point>, dist: int, r: Seq<Point>) -> bool {
    &&& r.len() == s.len()
    &&& forall|i: int|
        0 <= i < s.len() ==> miter_point(s, succ(i, s.len() as int), dist) == Some::<(int, int)>(
            ((#[trigger] r[i]).x as int, r[i].y as int),
        )
}

pub(crate) proof fn lemma_len_bound(ux: int, uy: int, l: int)
    requires
        -2097152 <= ux <= 2097152,
        -2097152 <= uy <= 2097152,
        is_floor_sqrt(ux * ux + uy * uy, l),
    ensures
        0 <= l <= 4194304,
{
    lemma_mul_bounded(ux, ux, 2097152, 2097152);
    lemma_mul_bounded(uy, uy, 2097152, 2097152);
    if l > 4194304 {
        assert(l * l > 4194304 * 4194304) by (nonlinear_arith)
            requires l > 4194304;
    }
}

/// The offset point of corner `i`, or why there is none.
fn miter(pts: &Vec<Point>, i: usize, dist: i64) -> (r: Result<Point, ShapeError>)
    requires
        all_in_range(pts@),
        i < pts@.len(),
    ensures
        r matches Ok(q) ==> corner_ok(pts@, i as int, dist as int) && miter_point(pts@, i as int, dist as int)
            == Some::<(int, int)>((q.x as int, q.y as int)) && in_range(q),
        r is Err ==> !corner_ok(pts@, i as int, dist as int),
        r matches Err(e) ==> e == ShapeError::FoldedCorner || e == ShapeError::OutOfRange,
{
    let n = pts.len();
    proof {
        lemma_neighbors(i as int, n as int);
    }
    let p0 = pts[if i == 0 { n - 1 } else { i - 1 }];
    let p1 = pts[i];
    let p2 = pts[if i + 1 == n { 0 } else { i + 1 }];
    let ux = (p1.x - p0.x) as i128;
    let uy = (p1.y - p0.y) as i128;
    let vx = (p2.x - p1.x) as i128;
    let vy = (p2.y - p1.y) as i128;
    proof {
        lemma_mul_bounded(ux as int, ux as int, 2097152, 2097152);
        lemma_mul_bounded(uy as int, uy as int, 2097152, 2097152);
        lemma_mul_bounded(vx as int, vx as int, 2097152, 2097152);
        lemma_mul_bounded(vy as int, vy as int, 2097152, 2097152);
        lemma_mul_bounded(ux as int, vx as int, 2097152, 2097152);
        lemma_mul_bounded(uy as int, vy as int, 2097152, 2097152);
        assert(ux * ux + uy * uy >= 0 && vx * vx + vy * vy >= 0) by (nonlinear_arith);
    }
    let lu = isqrt((ux * ux + uy * uy) as u128) as i128;
    let lv = isqrt((vx * vx + vy * vy) as u128) as i128;
    proof {
        lemma_len_bound(ux as int, uy as int, lu as int);
        lemma_len_bound(vx as int, vy as int, lv as int);
        lemma_mul_bounded(lu as int, lv as int, 4194304, 4194304);
        lemma_mul_bounded(uy as int, lv as int, 2097152, 4194304);
        lemma_mul_bounded(vy as int, lu as int, 2097152, 4194304);
        lemma_mul_bounded(ux as int, lv as int, 2097152, 4194304);
        lemma_mul_bounded(vx as int, lu as int, 2097152, 4194304);
    }
    let d = lu * lv + ux * vx + uy * vy;
    if d <= 0 {
        return Err(ShapeError::FoldedCorner);
    }
    let wx = -(uy * lv) - vy * lu;
    let wy = ux * lv + vx * lu;
    let t = dist as i128;
    proof {
        lemma_mul_bounded(t as int, wx as int, 0x8000_0000_0000_0000, 0x1000_0000_0000);
        lemma_mul_bounded(t as int, wy as int, 0x8000_0000_0000_0000, 0x1000_0000_0000);
        assert(0x8000_0000_0000_0000 * 0x1000_0000_0000 == 0x800_0000_0000_0000_0000_0000_0000) by (nonlinear_arith);
    }
    let mx = floor_div(2 * (t * wx) + d, 2 * d);
    let my = floor_div(2 * (t * wy) + d, 2 * d);
    proof {
        assert(-0x800_0000_0000_0000_0000_0000_0000 <= mx <= 0x800_0000_0000_0000_0000_0000_0000) by (nonlinear_arith)
            requires
                mx == (2 * (t * wx) + d) / (2 * d),
                d >= 1,
                d <= 0x4000_0000_0000,
                -0x800_0000_0000_0000_0000_0000_0000 <= t * wx <= 0x800_0000_0000_0000_0000_0000_0000;
        assert(-0x800_0000_0000_0000_0000_0000_0000 <= my <= 0x800_0000_0000_0000_0000_0000_0000) by (nonlinear_arith)
            requires
                my == (2 * (t * wy) + d) / (2 * d),
                d >= 1,
                d <= 0x4000_0000_0000,
                -0x800_0000_0000_0000_0000_0000_0000 <= t * wy <= 0x800_0000_0000_0000_0000_0000_0000;
    }
    let x = p1.x as i128 + mx;
    let y = p1.y as i128 + my;
    let limit = COORD_LIMIT as i128;
    if x < -limit || x > limit || y < -limit || y > limit {
        return Err(ShapeError::OutOfRange);
    }
    Ok(Point { x: x as i64, y: y as i64 })
}

/// Moves every corner of the closed contour `pts` by `dist` along its mitered left
/// normal: inward for a counter-clockwise contour when `dist` is positive.
pub fn offset_points(pts: &Vec<Point>, dist: i64) -> (r: Result<Vec<Point>, ShapeError>)
    requires
        all_in_range(pts@),
    ensures
        r is Ok <==> corners_ok(pts@, dist as int),
        r matches Ok(v) ==> offset_of(pts@, dist as int, v@) && all_in_range(v@),
        r matches Err(e) ==> e == ShapeError::FoldedCorner || e == ShapeError::OutOfRange,
{
    let n = pts.len();
    let mut out: Vec<Point> = Vec::with_capacity(n);
    let mut i: usize = 0;
    while i < n
        invariant
            n == pts@.len(),
            all_in_range(pts@),
            i <= n,
            out@.len() == i,
            all_in_range(out@),
            forall|j: int| 0 <= j < i ==> #[trigger] corner_ok(pts@, succ(j, n as int), dist as int),
            forall|j: int|
                0 <= j < i ==> miter_point(pts@, succ(j, n as int), dist as int) == Some::<(int, int)>(
                    ((#[trigger] out@[j]).x as int, out@[j].y as int),
                ),
        decreases n - i,
    {
        let c = if i + 1 == n { 0 } else { i + 1 };
        proof {
            lemma_neighbors(i as int, n as int);
        }
        match miter(pts, c, dist) {
            Ok(q) => {
                out.push(q);
            },
            Err(e) => {
                assert(!corner_ok(pts@, succ(i as int, n as int), dist as int));
                return Err(e);
            },
        }
        i = i + 1;
    }
    assert forall|c: int| 0 <= c < n implies #[trigger] corner_ok(pts@, c, dist as int) by {
        let j = if c == 0 { n - 1 } else { c - 1 };
        lemma_neighbors(j, n as int);
        assert(corner_ok(pts@, succ(j, n as int), dist as int));
    }
    Ok(out)
}

/// Half of `t`, rounded down.
pub open spec fn half(t: int) -> int {
    t / 2
}

/// `hp` is the ring around the closed contour `c`: its boundary is `c` moved outward
/// by `half_width`, its one hole `c` moved inward by as much, and the boundary is marked
/// simple exactly when `c` turns left everywhere.
pub open spec fn ring_around(c: Seq<Point>, half_width: int, hp: HoledPolygon) -> bool {
    &&& hp.wf()
    &&& offset_of(c, -half_width, hp.polygon.points@)
    &&& hp.holes@.len() == 1
    &&& offset_of(c, half_width, hp.holes@[0].points@)
    &&& hp.polygon.is_simple == convex(c)
    &&& (if convex(c) {
        hp.polygon.is_ccw == Some(ccw(hp.polygon.points@)) && hp.polygon.is_convex == Some(
            convex(hp.polygon.points@),
        )
    } else {
        hp.polygon.is_ccw is None && hp.polygon.is_convex is None
    })
    &&& !hp.holes@[0].is_simple
    &&& hp.holes@[0].is_ccw is None
    &&& hp.holes@[0].is_convex is None
}

/// Every corner of `c` can be moved by `half_width` both ways.
pub open spec fn ringable(c: Seq<Point>, half_width: int) -> bool {
    corners_ok(c, half_width) && corners_ok(c, -half_width)
}

/// Every corner of `c` has an offset point in range at distance `dist`.
pub open spec fn corners_ok(c: Seq<Point>, dist: int) -> bool {
    forall|i: int| 0 <= i < c.len() ==> #[trigger] corner_ok(c, i, dist)
}

fn half_of(t: i64) -> (r: i64)
    ensures
        r as int == half(t as int),
{
    floor_div(t as i128, 2) as i64
}

/// The ring of width `2 * half_width` centered on the contour of `c`.
fn ring_of(c: &mut Polygon, half_width: i64) -> (r: Result<HoledPolygon, ShapeError>)
    requires
        old(c).wf(),
        -0x4000_0000_0000_0000 <= half_width <= 0x4000_0000_0000_0000,
    ensures
        final(c).wf(),
        final(c).points == old(c).points,
        final(c).is_simple == old(c).is_simple,
        r matches Ok(hp) ==> ring_around(old(c).points@, half_width as int, hp),
        r is Ok <==> ringable(old(c).points@, half_width as int),
        r matches Err(e) ==> e == ShapeError::FoldedCorner || e == ShapeError::OutOfRange,
{
    let inner = match offset_points(&c.points, half_width) {
        Ok(v) => v,
        Err(e) => {
            return Err(e);
        },
    };
    let neg: i64 = -half_width;
    assert(neg as int == -(half_width as int));
    let outer = match offset_points(&c.points, neg) {
        Ok(v) => v,
        Err(e) => {
            return Err(e);
        },
    };
    let is_convex = c.is_convex();
    let mut polygon = Polygon::from_points(outer);
    if is_convex {
        polygon.is_simple = true;
        polygon.is_ccw();
        polygon.is_convex();
    }
    let mut holes: Vec<Polygon> = Vec::new();
    holes.push(Polygon::from_points(inner));
    Ok(HoledPolygon { polygon, holes })
}

/// Outlines a shape: replaces each of its contours by a ring of the given thickness
/// centered on it.
#[derive(Debug)]
pub struct Outline<T> {
    pub thickness: i64,
    pub _marker: std::marker::PhantomData<T>,
}

impl<T> Outline<T> {
    pub fn new(thickness: i64) -> (r: Outline<T>)
        ensures
            r.thickness == thickness,
    {
        Outline { thickness, _marker: std::marker::PhantomData }
    }
}

impl Shape for Outline<Polygon> {
    type Input = Polygon;
    type Output = HoledPolygon;

    open spec fn accepts(&self, p: Polygon) -> bool {
        p.wf()
    }

    open spec fn gives(&self, cfg: Config, p: Polygon, r: Result<HoledPolygon, ShapeError>) -> bool {
        let c = verified(p.points@, p.is_simple);
        let h = half(self.thickness as int);
        &&& r matches Ok(hp) ==> ring_around(c, h, hp)
        &&& r is Ok <==> ringable(c, h)
    }

    fn generate(&self, cfg: &Config, p: Polygon) -> (r: Result<HoledPolygon, ShapeError>) {
        let mut input = p;
        input.verify();
        ring_of(&mut input, half_of(self.thickness))
    }
}

impl Shape for Outline<HoledPolygon> {
    type Input = HoledPolygon;
    type Output = Vec<HoledPolygon>;

    open spec fn accepts(&self, p: HoledPolygon) -> bool {
        p.wf()
    }

    /// One ring per hole, in order, then one for the outer boundary, each around the
    /// verified contour.
    open spec fn gives(&self, cfg: Config, p: HoledPolygon, r: Result<Vec<HoledPolygon>, ShapeError>) -> bool {
        let h = half(self.thickness as int);
        let n = p.holes@.len();
        &&& r matches Ok(v) ==> {
            &&& v@.len() == n + 1
            &&& forall|k: int|
                0 <= k < n ==> ring_around(
                    verified(p.holes@[k].points@, p.holes@[k].is_simple),
                    h,
                    #[trigger] v@[k],
                )
            &&& ring_around(verified(p.polygon.points@, p.polygon.is_simple), h, v@[n as int])
        }
        &&& r is Ok <==> (forall|k: int|
            0 <= k < n ==> ringable(#[trigger] verified(p.holes@[k].points@, p.holes@[k].is_simple), h))
            && ringable(verified(p.polygon.points@, p.polygon.is_simple), h)
        &&& r matches Err(e) ==> e == ShapeError::FoldedCorner || e == ShapeError::OutOfRange
    }

    fn generate(&self, cfg: &Config, p: HoledPolygon) -> (r: Result<Vec<HoledPolygon>, ShapeError>) {
        let ghost p0 = p;
        let mut input = p;
        input.verify();
        let h = half_of(self.thickness);
        let n = input.holes.len();
        let mut rings: Vec<HoledPolygon> = Vec::new();
        let mut k: usize = 0;
        while k < n
            invariant
                n == input.holes@.len(),
                n == p0.holes@.len(),
                k <= n,
                input.wf(),
                rings@.len() == k,
                h as int == half(self.thickness as int),
                forall|j: int|
                    0 <= j < n ==> (#[trigger] input.holes@[j]).points@ == verified(
                        p0.holes@[j].points@,
                        p0.holes@[j].is_simple,
                    ),
                forall|j: int| 0 <= j < k ==> ring_around(input.holes@[j].points@, h as int, #[trigger] rings@[j]),
                forall|j: int|
                    0 <= j < k ==> ringable(#[trigger] verified(p0.holes@[j].points@, p0.holes@[j].is_simple), h as int),
                input.polygon.points@ == verified(p0.polygon.points@, p0.polygon.is_simple),
                p0 == p,
            decreases n - k,
        {
            let mut hole = input.holes[k].copy();
            let ring = match ring_of(&mut hole, h) {
                Ok(ring) => ring,
                Err(e) => {
                    assert(!ringable(verified(p0.holes@[k as int].points@, p0.holes@[k as int].is_simple), h as int));
                    return Err(e);
                },
            };
            rings.push(ring);
            k = k + 1;
        }
        let ring = match ring_of(&mut input.polygon, h) {
            Ok(ring) => ring,
            Err(e) => {
                return Err(e);
            },
        };
        rings.push(ring);
        Ok(rings)
    }
}

/// The unnormalized left normal of an open line `s` at point `i`: that of the first
/// or last segment at the ends, and between them the sum of the two adjacent segments'
/// normals, each weighted by the other segment's length so that both count alike.
pub open spec fn side_normal(s: Seq<Point>, i: int) -> (int, int) {
    let n = s.len() as int;
    if i == 0 {
        (-(s[1].y - s[0].y), s[1].x - s[0].x)
    } else if i == n - 1 {
        (-(s[n - 1].y - s[n - 2].y), s[n - 1].x - s[n - 2].x)
    } else {
        let (ux, uy) = (s[i].x - s[i - 1].x, s[i].y - s[i - 1].y);
        let (vx, vy) = (s[i + 1].x - s[i].x, s[i + 1].y - s[i].y);
        let lu = floor_sqrt(ux * ux + uy * uy);
        let lv = floor_sqrt(vx * vx + vy * vy);
        (-(uy * lv) - vy * lu, ux * lv + vx * lu)
    }
}

/// Point `i` of the open line `s` moved by `dist` against its left normal, rounded to
/// the grid; `None` where the normal has no length.
pub open spec fn side_point(s: Seq<Point>, i: int, dist: int) -> Option<(int, int)> {
    let (dx, dy) = side_normal(s, i);
    let l = floor_sqrt(dx * dx + dy * dy);
    if l == 0 {
        None
    } else {
        Some((s[i].x - round_div(dist * dx, l), s[i].y - round_div(dist * dy, l)))
    }
}

/// Point `i` has a moved point, and it lies in range.
pub open spec fn side_ok(s: Seq<Point>, i: int, dist: int) -> bool {
    side_point(s, i, dist) matches Some(q) && -COORD_LIMIT <= q.0 <= COORD_LIMIT && -COORD_LIMIT <= q.1
        <= COORD_LIMIT
}

pub(crate) fn shift_side(pts: &Vec<Point>, i: usize, dist: i64) -> (r: Result<Point, ShapeError>)
    requires
        all_in_range(pts@),
        pts@.len() >= 2,
        i < pts@.len(),
    ensures
        r matches Ok(q) ==> side_ok(pts@, i as int, dist as int) && side_point(pts@, i as int, dist as int)
            == Some::<(int, int)>((q.x as int, q.y as int)) && in_range(q),
        r is Err ==> !side_ok(pts@, i as int, dist as int),
        r matches Err(e) ==> e == ShapeError::FoldedCorner || e == ShapeError::OutOfRange,
{
    let n = pts.len();
    let p = pts[i];
    let (dx, dy): (i128, i128) = if i == 0 || i == n - 1 {
        let (a, b) = if i == 0 { (pts[0], pts[1]) } else { (pts[n - 2], pts[n - 1]) };
        (-((b.y - a.y) as i128), (b.x - a.x) as i128)
    } else {
        let p0 = pts[i - 1];
        let p2 = pts[i + 1];
        let ux = (p.x - p0.x) as i128;
        let uy = (p.y - p0.y) as i128;
        let vx = (p2.x - p.x) as i128;
        let vy = (p2.y - p.y) as i128;
        proof {
            lemma_mul_bounded(ux as int, ux as int, 2097152, 2097152);
            lemma_mul_bounded(uy as int, uy as int, 2097152, 2097152);
            lemma_mul_bounded(vx as int, vx as int, 2097152, 2097152);
            lemma_mul_bounded(vy as int, vy as int, 2097152, 2097152);
            assert(ux * ux + uy * uy >= 0 && vx * vx + vy * vy >= 0) by (nonlinear_arith);
        }
        let lu = isqrt((ux * ux + uy * uy) as u128) as i128;
        let lv = isqrt((vx * vx + vy * vy) as u128) as i128;
        proof {
            lemma_len_bound(ux as int, uy as int, lu as int);
            lemma_len_bound(vx as int, vy as int, lv as int);
            lemma_mul_bounded(uy as int, lv as int, 2097152, 4194304);
            lemma_mul_bounded(vy as int, lu as int, 2097152, 4194304);
            lemma_mul_bounded(ux as int, lv as int, 2097152, 4194304);
            lemma_mul_bounded(vx as int, lu as int, 2097152, 4194304);
        }
        (-(uy * lv) - vy * lu, ux * lv + vx * lu)
    };
    assert((dx as int, dy as int) == side_normal(pts@, i as int));
    assert(-0x1000_0000_0000 <= dx <= 0x1000_0000_0000 && -0x1000_0000_0000 <= dy <= 0x1000_0000_0000);
    proof {
        lemma_mul_bounded(dx as int, dx as int, 0x1000_0000_0000, 0x1000_0000_0000);
        lemma_mul_bounded(dy as int, dy as int, 0x1000_0000_0000, 0x1000_0000_0000);
        assert(dx * dx + dy * dy >= 0) by (nonlinear_arith);
        assert(0x1000_0000_0000int * 0x1000_0000_0000int == 0x100_0000_0000_0000_0000_0000);
    }
    let l = isqrt((dx * dx + dy * dy) as u128) as i128;
    if l == 0 {
        return Err(ShapeError::FoldedCorner);
    }
    proof {
        if l > 0x4000_0000_0000 {
            assert(l * l > 0x4000_0000_0000 * 0x4000_0000_0000) by (nonlinear_arith)
                requires l > 0x4000_0000_0000;
        }
    }
    let t = dist as i128;
    proof {
        lemma_mul_bounded(t as int, dx as int, 0x8000_0000_0000_0000, 0x1000_0000_0000);
        lemma_mul_bounded(t as int, dy as int, 0x8000_0000_0000_0000, 0x1000_0000_0000);
        assert(0x8000_0000_0000_0000int * 0x1000_0000_0000int == 0x800_0000_0000_0000_0000_0000_0000);
    }
    let mx = floor_div(2 * (t * dx) + l, 2 * l);
    let my = floor_div(2 * (t * dy) + l, 2 * l);
    proof {
        assert(-0x800_0000_0000_0000_0000_0000_0000 <= mx <= 0x800_0000_0000_0000_0000_0000_0000) by (nonlinear_arith)
            requires
                mx == (2 * (t * dx) + l) / (2 * l),
                l >= 1,
                l <= 0x4000_0000_0000,
                -0x800_0000_0000_0000_0000_0000_0000 <= t * dx <= 0x800_0000_0000_0000_0000_0000_0000;
        assert(-0x800_0000_0000_0000_0000_0000_0000 <= my <= 0x800_0000_0000_0000_0000_0000_0000) by (nonlinear_arith)
            requires
                my == (2 * (t * dy) + l) / (2 * l),
                l >= 1,
                l <= 0x4000_0000_0000,
                -0x800_0000_0000_0000_0000_0000_0000 <= t * dy <= 0x800_0000_0000_0000_0000_0000_0000;
    }
    let x = p.x as i128 - mx;
    let y = p.y as i128 - my;
    let limit = COORD_LIMIT as i128;
    if x < -limit || x > limit || y < -limit || y > limit {
        return Err(ShapeError::OutOfRange);
    }
    Ok(Point { x: x as i64, y: y as i64 })
}

/// Moves an open line sideways, against its left normal, by `offset` grid units.
#[derive(Debug)]
pub struct Offset<T> {
    pub offset: i64,
    pub _marker: std::marker::PhantomData<T>,
}

impl<T> Offset<T> {
    pub fn new(offset: i64) -> (r: Offset<T>)
        ensures
            r.offset == offset,
    {
        Offset { offset, _marker: std::marker::PhantomData }
    }
}

impl Shape for Offset<Polyline> {
    type Input = Polyline;
    type Output = Polyline;

    open spec fn accepts(&self, line: Polyline) -> bool {
        line.wf() && line.points@.len() >= 2
    }

    open spec fn gives(&self, cfg: Config, line: Polyline, r: Result<Polyline, ShapeError>) -> bool {
        let s = line.points@;
        &&& r is Ok <==> forall|i: int| 0 <= i < s.len() ==> #[trigger] side_ok(s, i, self.offset as int)
        &&& r matches Ok(out) ==> {
            &&& out.wf()
            &&& out.direction is None
            &&& out.points@.len() == s.len()
            &&& forall|i: int|
                0 <= i < s.len() ==> side_point(s, i, self.offset as int) == Some::<(int, int)>(
                    ((#[trigger] out.points@[i]).x as int, out.points@[i].y as int),
                )
        }
    }

    fn generate(&self, cfg: &Config, line: Polyline) -> (r: Result<Polyline, ShapeError>) {
        let pts = &line.points;
        let n = pts.len();
        let mut out: Vec<Point> = Vec::with_capacity(n);
        let mut i: usize = 0;
        while i < n
            invariant
                n == pts@.len(),
                n >= 2,
                pts@ == line.points@,
                all_in_range(pts@),
                i <= n,
                out@.len() == i,
                all_in_range(out@),
                forall|j: int| 0 <= j < i ==> #[trigger] side_ok(pts@, j, self.offset as int),
                forall|j: int|
                    0 <= j < i ==> side_point(pts@, j, self.offset as int) == Some::<(int, int)>(
                        ((#[trigger] out@[j]).x as int, out@[j].y as int),
                    ),
            decreases n - i,
        {
            match shift_side(pts, i, self.offset) {
                Ok(q) => {
                    out.push(q);
                },
                Err(e) => {
                    assert(!side_ok(line.points@, i as int, self.offset as int));
                    return Err(e);
                },
            }
            i = i + 1;
        }
        Ok(Polyline::from_points(out))
    }
}

} // verus!
