//! Growing open lines: extending them straight on and thickening them into ribbons.
use vstd::prelude::*;
use crate::error::ShapeError;
use crate::offset::{floor_sqrt, round_div, side_point, side_ok, shift_side, floor_div, isqrt, lemma_len_bound, half};
use crate::point::{Point, in_range, all_in_range, lemma_mul_bounded, COORD_LIMIT, UNIT};
use crate::polygon::{Polygon, simplified, uncrossed};
use crate::polyline::{Polyline, end_vector};
use crate::shape::{Config, Shape};

verus! {

/// A cap profile point lies on or inside the square of half-width `UNIT`.
pub open spec fn profile_ok(profile: Seq<Point>) -> bool {
    forall|k: int|
        0 <= k < profile.len() ==> -UNIT <= (#[trigger] profile[k]).x <= UNIT && -UNIT <= profile[k].y <= UNIT
}

/// The profile point `q` placed at the end point `p` of a line whose last segment runs
/// along `d`: `q` is read in the frame whose first axis is the left normal of `d` and
/// whose second axis is `-d`, scaled from `UNIT` to `r`. A half circle profile from
/// angle 0 to angle pi thus sweeps a round cap around `p` from one side of the line to
/// the other. `None` when `d` has no length.
pub open spec fn cap_point(p: Point, dx: int, dy: int, r: int, q: Point) -> Option<(int, int)> {
    let l = floor_sqrt(dx * dx + dy * dy);
    if l == 0 {
        None
    } else {
        Some(
            (
                p.x + round_div(r * (-(q.x * dy) - q.y * dx), UNIT * l),
                p.y + round_div(r * (q.x * dx - q.y * dy), UNIT * l),
            ),
        )
    }
}

/// `q` is the grid point that `o` names.
pub open spec fn lands(o: Option<(int, int)>, q: Point) -> bool {
    o == Some::<(int, int)>((q.x as int, q.y as int))
}

/// `o` names a point, and it lies in range.
pub open spec fn fits(o: Option<(int, int)>) -> bool {
    o matches Some(q) && -COORD_LIMIT <= q.0 <= COORD_LIMIT && -COORD_LIMIT <= q.1 <= COORD_LIMIT
}

/// Every point of the ribbon around `s` exists and lies in range.
pub open spec fn ribbon_ok(s: Seq<Point>, h: int, profile: Seq<Point>) -> bool {
    let n = s.len() as int;
    &&& forall|k: int|
        0 <= k < profile.len() ==> fits(#[trigger] cap_point(s[0], start_dir(s).0, start_dir(s).1, h, profile[k]))
    &&& forall|k: int|
        0 <= k < profile.len() ==> fits(
            #[trigger] cap_point(s[n - 1], end_dir(s).0, end_dir(s).1, h, profile[k]),
        )
    &&& forall|i: int| 1 <= i < n - 1 ==> #[trigger] side_ok(s, i, h)
    &&& forall|i: int| 1 <= i < n - 1 ==> #[trigger] side_ok(s, i, -h)
}

/// The direction in which the cap at the start of `s` looks: from point 1 to point 0.
pub open spec fn start_dir(s: Seq<Point>) -> (int, int) {
    (s[1].x - s[0].x, s[1].y - s[0].y)
}

/// The direction of the cap at the end of `s`: from the last point to the one before.
pub open spec fn end_dir(s: Seq<Point>) -> (int, int) {
    let n = s.len() as int;
    (s[n - 2].x - s[n - 1].x, s[n - 2].y - s[n - 1].y)
}

/// `raw` is the ribbon around the line `s` before normalization: the start cap, the
/// interior points moved by `h` to the right, the end cap, and the interior points moved
/// by `h` to the left, walked back.
pub open spec fn ribbon(s: Seq<Point>, h: int, profile: Seq<Point>, raw: Seq<Point>) -> bool {
    let n = s.len() as int;
    let m = profile.len() as int;
    let (ax, ay) = start_dir(s);
    let (bx, by) = end_dir(s);
    &&& raw.len() == 2 * m + 2 * (n - 2)
    &&& forall|k: int| 0 <= k < m ==> lands(cap_point(s[0], ax, ay, h, profile[k]), #[trigger] raw[k])
    &&& forall|k: int| 0 <= k < n - 2 ==> lands(side_point(s, k + 1, h), #[trigger] raw[m + k])
    &&& forall|k: int|
        0 <= k < m ==> lands(cap_point(s[n - 1], bx, by, h, profile[k]), #[trigger] raw[m + n - 2 + k])
    &&& forall|k: int| 0 <= k < n - 2 ==> lands(side_point(s, n - 2 - k, -h), #[trigger] raw[2 * m + n - 2 + k])
}

fn place_cap(p: Point, dx: i64, dy: i64, r: i64, q: Point) -> (res: Result<Point, ShapeError>)
    requires
        in_range(p),
        -2 * COORD_LIMIT <= dx <= 2 * COORD_LIMIT,
        -2 * COORD_LIMIT <= dy <= 2 * COORD_LIMIT,
        -UNIT <= q.x <= UNIT,
        -UNIT <= q.y <= UNIT,
    ensures
        res matches Ok(c) ==> lands(cap_point(p, dx as int, dy as int, r as int, q), c) && in_range(c),
        res is Ok <==> fits(cap_point(p, dx as int, dy as int, r as int, q)),
        res matches Err(e) ==> e == ShapeError::FoldedCorner || e == ShapeError::OutOfRange,
{
    let dx = dx as i128;
    let dy = dy as i128;
    proof {
        lemma_mul_bounded(dx as int, dx as int, 2097152, 2097152);
        lemma_mul_bounded(dy as int, dy as int, 2097152, 2097152);
        assert(dx * dx + dy * dy >= 0) by (nonlinear_arith);
    }
    let l = isqrt((dx * dx + dy * dy) as u128) as i128;
    if l == 0 {
        return Err(ShapeError::FoldedCorner);
    }
    proof {
        lemma_len_bound(dx as int, dy as int, l as int);
        lemma_mul_bounded(q.x as int, dy as int, 1024, 2097152);
        lemma_mul_bounded(q.y as int, dx as int, 1024, 2097152);
        lemma_mul_bounded(q.x as int, dx as int, 1024, 2097152);
        lemma_mul_bounded(q.y as int, dy as int, 1024, 2097152);
    }
    let ex = -((q.x as i128) * dy) - (q.y as i128) * dx;
    let ey = (q.x as i128) * dx - (q.y as i128) * dy;
    let t = r as i128;
    proof {
        assert(-0x1_0000_0000 <= ex <= 0x1_0000_0000);
        assert(-0x1_0000_0000 <= ey <= 0x1_0000_0000);
        lemma_mul_bounded(t as int, ex as int, 0x8000_0000_0000_0000, 0x1_0000_0000);
        lemma_mul_bounded(t as int, ey as int, 0x8000_0000_0000_0000, 0x1_0000_0000);
        assert(0x8000_0000_0000_0000int * 0x1_0000_0000int == 0x8000_0000_0000_0000_0000_0000);
    }
    let den = 1024 * l;
    let mx = floor_div(2 * (t * ex) + den, 2 * den);
    let my = floor_div(2 * (t * ey) + den, 2 * den);
    proof {
        assert(-0x8000_0000_0000_0000_0000_0000 <= mx <= 0x8000_0000_0000_0000_0000_0000) by (nonlinear_arith)
            requires
                mx == (2 * (t * ex) + den) / (2 * den),
                den >= 1,
                den <= 0x1_0000_0000_0000,
                -0x8000_0000_0000_0000_0000_0000 <= t * ex <= 0x8000_0000_0000_0000_0000_0000;
        assert(-0x8000_0000_0000_0000_0000_0000 <= my <= 0x8000_0000_0000_0000_0000_0000) by (nonlinear_arith)
            requires
                my == (2 * (t * ey) + den) / (2 * den),
                den >= 1,
                den <= 0x1_0000_0000_0000,
                -0x8000_0000_0000_0000_0000_0000 <= t * ey <= 0x8000_0000_0000_0000_0000_0000;
    }
    let x = p.x as i128 + mx;
    let y = p.y as i128 + my;
    let limit = COORD_LIMIT as i128;
    if x < -limit || x > limit || y < -limit || y > limit {
        return Err(ShapeError::OutOfRange);
    }
    Ok(Point { x: x as i64, y: y as i64 })
}

/// Builds the ribbon around `pts` before normalization.
fn ribbon_points(pts: &Vec<Point>, h: i64, profile: &Vec<Point>) -> (r: Result<Vec<Point>, ShapeError>)
    requires
        all_in_range(pts@),
        pts@.len() >= 2,
        profile_ok(profile@),
        -0x4000_0000_0000_0000 <= h <= 0x4000_0000_0000_0000,
    ensures
        r matches Ok(raw) ==> ribbon(pts@, h as int, profile@, raw@) && all_in_range(raw@),
        r is Ok <==> ribbon_ok(pts@, h as int, profile@),
        r matches Err(e) ==> e == ShapeError::FoldedCorner || e == ShapeError::OutOfRange,
{
    let n = pts.len();
    let m = profile.len();
    let ghost s = pts@;
    let a0 = pts[0];
    let a1 = pts[1];
    let b0 = pts[n - 1];
    let b1 = pts[n - 2];
    assert(in_range(s[0]) && in_range(s[1]) && in_range(s[n - 1]) && in_range(s[n - 2]));
    let mut raw: Vec<Point> = Vec::new();
    let mut k: usize = 0;
    while k < m
        invariant
            m == profile@.len(),
            profile_ok(profile@),
            s == pts@,
            s.len() >= 2,
            in_range(a0),
            in_range(a1),
            a0 == s[0],
            a1 == s[1],
            k <= m,
            raw@.len() == k,
            all_in_range(raw@),
            forall|j: int|
                0 <= j < k ==> lands(
                    cap_point(s[0], start_dir(s).0, start_dir(s).1, h as int, profile@[j]),
                    #[trigger] raw@[j],
                ),
            forall|j: int| 0 <= j < k ==> fits(#[trigger] cap_point(s[0], start_dir(s).0, start_dir(s).1, h as int, profile@[j])),
        decreases m - k,
    {
        let c = match place_cap(a0, a1.x - a0.x, a1.y - a0.y, h, profile[k]) {
            Ok(c) => c,
            Err(e) => {
                assert(!fits(cap_point(s[0], start_dir(s).0, start_dir(s).1, h as int, profile@[k as int])));
                return Err(e);
            },
        };
        raw.push(c);
        k = k + 1;
    }
    let mut i: usize = 1;
    while i + 1 < n
        invariant
            n == s.len(),
            s == pts@,
            n >= 2,
            all_in_range(pts@),
            1 <= i <= n - 1,
            raw@.len() == m + i - 1,
            all_in_range(raw@),
            forall|j: int|
                0 <= j < m ==> lands(
                    cap_point(s[0], start_dir(s).0, start_dir(s).1, h as int, profile@[j]),
                    #[trigger] raw@[j],
                ),
            forall|j: int| 0 <= j < i - 1 ==> lands(side_point(s, j + 1, h as int), #[trigger] raw@[m + j]),
            forall|j: int| 0 <= j < m ==> fits(#[trigger] cap_point(s[0], start_dir(s).0, start_dir(s).1, h as int, profile@[j])),
            forall|j: int| 1 <= j < i ==> #[trigger] side_ok(s, j, h as int),
            m == profile@.len(),
        decreases n - i,
    {
        let q = match shift_side(pts, i, h) {
            Ok(q) => q,
            Err(e) => {
                assert(!side_ok(s, i as int, h as int));
                return Err(e);
            },
        };
        raw.push(q);
        i = i + 1;
    }
    let mut k: usize = 0;
    while k < m
        invariant
            n == s.len(),
            s == pts@,
            n >= 2,
            m == profile@.len(),
            profile_ok(profile@),
            in_range(b0),
            in_range(b1),
            b0 == s[n - 1],
            b1 == s[n - 2],
            k <= m,
            raw@.len() == m + n - 2 + k,
            all_in_range(raw@),
            forall|j: int|
                0 <= j < m ==> lands(
                    cap_point(s[0], start_dir(s).0, start_dir(s).1, h as int, profile@[j]),
                    #[trigger] raw@[j],
                ),
            forall|j: int| 0 <= j < n - 2 ==> lands(side_point(s, j + 1, h as int), #[trigger] raw@[m + j]),
            forall|j: int|
                0 <= j < k ==> lands(
                    cap_point(s[n - 1], end_dir(s).0, end_dir(s).1, h as int, profile@[j]),
                    #[trigger] raw@[m + n - 2 + j],
                ),
            forall|j: int| 0 <= j < m ==> fits(#[trigger] cap_point(s[0], start_dir(s).0, start_dir(s).1, h as int, profile@[j])),
            forall|j: int| 1 <= j < n - 1 ==> #[trigger] side_ok(s, j, h as int),
            forall|j: int| 0 <= j < k ==> fits(#[trigger] cap_point(s[n - 1], end_dir(s).0, end_dir(s).1, h as int, profile@[j])),
        decreases m - k,
    {
        let c = match place_cap(b0, b1.x - b0.x, b1.y - b0.y, h, profile[k]) {
            Ok(c) => c,
            Err(e) => {
                assert(!fits(cap_point(s[n - 1], end_dir(s).0, end_dir(s).1, h as int, profile@[k as int])));
                return Err(e);
            },
        };
        raw.push(c);
        k = k + 1;
    }
    let neg: i64 = -h;
    let mut i: usize = n - 1;
    while i > 1
        invariant
            n == s.len(),
            s == pts@,
            n >= 2,
            all_in_range(pts@),
            neg as int == -(h as int),
            1 <= i <= n - 1,
            raw@.len() == 2 * m + n - 2 + (n - 1 - i),
            all_in_range(raw@),
            forall|j: int|
                0 <= j < m ==> lands(
                    cap_point(s[0], start_dir(s).0, start_dir(s).1, h as int, profile@[j]),
                    #[trigger] raw@[j],
                ),
            forall|j: int| 0 <= j < n - 2 ==> lands(side_point(s, j + 1, h as int), #[trigger] raw@[m + j]),
            forall|j: int|
                0 <= j < m ==> lands(
                    cap_point(s[n - 1], end_dir(s).0, end_dir(s).1, h as int, profile@[j]),
                    #[trigger] raw@[m + n - 2 + j],
                ),
            forall|j: int|
                0 <= j < n - 1 - i ==> lands(side_point(s, n - 2 - j, -(h as int)), #[trigger] raw@[2 * m + n - 2 + j]),
            m == profile@.len(),
            forall|j: int| 0 <= j < m ==> fits(#[trigger] cap_point(s[0], start_dir(s).0, start_dir(s).1, h as int, profile@[j])),
            forall|j: int| 1 <= j < n - 1 ==> #[trigger] side_ok(s, j, h as int),
            forall|j: int| 0 <= j < m ==> fits(#[trigger] cap_point(s[n - 1], end_dir(s).0, end_dir(s).1, h as int, profile@[j])),
            forall|j: int| i <= j < n - 1 ==> #[trigger] side_ok(s, j, -(h as int)),
        decreases i,
    {
        let q = match shift_side(pts, i - 1, neg) {
            Ok(q) => q,
            Err(e) => {
                assert(!side_ok(s, i - 1, -(h as int)));
                return Err(e);
            },
        };
        raw.push(q);
        i = i - 1;
    }
    Ok(raw)
}

/// Thickens a line into a polygon of the given thickness. Each end gets a cap drawn
/// from `cap`, a profile in units of `UNIT` (see [`cap_point`]); an empty profile leaves
/// the ends open, so that the sides meet straight across.
#[derive(Debug)]
pub struct Thicken {
    pub thickness: i64,
    pub cap: Vec<Point>,
}

impl Shape for Thicken {
    type Input = Polyline;
    type Output = Polygon;

    open spec fn accepts(&self, line: Polyline) -> bool {
        line.wf() && line.points@.len() >= 2 && profile_ok(self.cap@)
    }

    /// The ribbon, with its self-crossings cut away and normalized.
    open spec fn gives(&self, cfg: Config, line: Polyline, r: Result<Polygon, ShapeError>) -> bool {
        let h = half(self.thickness as int);
        &&& r is Ok <==> ribbon_ok(line.points@, h, self.cap@)
        &&& r matches Ok(p) ==> p.wf() && p.is_simple && exists|raw: Seq<Point>|
            ribbon(line.points@, h, self.cap@, raw) && p.points@ == simplified(uncrossed(raw), false)
        &&& r matches Err(e) ==> e == ShapeError::FoldedCorner || e == ShapeError::OutOfRange
    }

    fn generate(&self, cfg: &Config, line: Polyline) -> (r: Result<Polygon, ShapeError>) {
        let h2 = floor_div(self.thickness as i128, 2);
        assert(-0x4000_0000_0000_0000 <= h2 <= 0x4000_0000_0000_0000);
        let h = h2 as i64;
        let raw = ribbon_points(&line.points, h, &self.cap)?;
        let ghost raw0 = raw@;
        let mut polygon = Polygon::from_points(raw);
        polygon.remove_intersection();
        polygon.make_simple();
        assert(ribbon(line.points@, half(self.thickness as int), self.cap@, raw0));
        Ok(polygon)
    }
}

/// The point `length` grid units from `p` in the direction `(dx, dy)`, rounded to the
/// grid; `None` when the direction has no length.
pub open spec fn step_ahead(p: Point, dx: int, dy: int, length: int) -> Option<(int, int)> {
    let l = floor_sqrt(dx * dx + dy * dy);
    if l == 0 {
        None
    } else {
        Some((p.x + round_div(length * dx, l), p.y + round_div(length * dy, l)))
    }
}

fn advance(p: Point, dx: i64, dy: i64, length: i64) -> (res: Result<Point, ShapeError>)
    requires
        in_range(p),
        -2 * COORD_LIMIT <= dx <= 2 * COORD_LIMIT,
        -2 * COORD_LIMIT <= dy <= 2 * COORD_LIMIT,
    ensures
        res matches Ok(c) ==> lands(step_ahead(p, dx as int, dy as int, length as int), c) && in_range(c),
        res is Ok <==> fits(step_ahead(p, dx as int, dy as int, length as int)),
        res matches Err(e) ==> e == ShapeError::FoldedCorner || e == ShapeError::OutOfRange,
{
    let dx = dx as i128;
    let dy = dy as i128;
    proof {
        lemma_mul_bounded(dx as int, dx as int, 2097152, 2097152);
        lemma_mul_bounded(dy as int, dy as int, 2097152, 2097152);
        assert(dx * dx + dy * dy >= 0) by (nonlinear_arith);
    }
    let l = isqrt((dx * dx + dy * dy) as u128) as i128;
    if l == 0 {
        return Err(ShapeError::FoldedCorner);
    }
    proof {
        lemma_len_bound(dx as int, dy as int, l as int);
    }
    let t = length as i128;
    proof {
        lemma_mul_bounded(t as int, dx as int, 0x8000_0000_0000_0000, 2097152);
        lemma_mul_bounded(t as int, dy as int, 0x8000_0000_0000_0000, 2097152);
        assert(0x8000_0000_0000_0000int * 2097152int == 0x10_0000_0000_0000_0000_0000);
    }
    let mx = floor_div(2 * (t * dx) + l, 2 * l);
    let my = floor_div(2 * (t * dy) + l, 2 * l);
    proof {
        assert(-0x10_0000_0000_0000_0000_0000 <= mx <= 0x10_0000_0000_0000_0000_0000) by (nonlinear_arith)
            requires
                mx == (2 * (t * dx) + l) / (2 * l),
                l >= 1,
                l <= 4194304,
                -0x10_0000_0000_0000_0000_0000 <= t * dx <= 0x10_0000_0000_0000_0000_0000;
        assert(-0x10_0000_0000_0000_0000_0000 <= my <= 0x10_0000_0000_0000_0000_0000) by (nonlinear_arith)
            requires
                my == (2 * (t * dy) + l) / (2 * l),
                l >= 1,
                l <= 4194304,
                -0x10_0000_0000_0000_0000_0000 <= t * dy <= 0x10_0000_0000_0000_0000_0000;
    }
    let x = p.x as i128 + mx;
    let y = p.y as i128 + my;
    let limit = COORD_LIMIT as i128;
    if x < -limit || x > limit || y < -limit || y > limit {
        return Err(ShapeError::OutOfRange);
    }
    Ok(Point { x: x as i64, y: y as i64 })
}

/// Extends a line straight on, in the direction it ends in, by `length` grid units.
#[derive(Clone, Copy, Debug)]
pub struct Forward {
    pub length: i64,
}

impl Shape for Forward {
    type Input = Polyline;
    type Output = Polyline;

    open spec fn accepts(&self, line: Polyline) -> bool {
        line.wf() && line.points@.len() >= 2
    }

    open spec fn gives(&self, cfg: Config, line: Polyline, r: Result<Polyline, ShapeError>) -> bool {
        let s = line.points@;
        let ahead = step_ahead(s[s.len() - 1], end_vector(s).0, end_vector(s).1, self.length as int);
        &&& r is Ok <==> fits(ahead)
        &&& r matches Ok(out) ==> out.wf() && out.direction is None && exists|q: Point|
            lands(ahead, q) && out.points@ == s.push(q)
        &&& r matches Err(e) ==> e == ShapeError::FoldedCorner || e == ShapeError::OutOfRange
    }

    fn generate(&self, cfg: &Config, line: Polyline) -> (r: Result<Polyline, ShapeError>) {
        let mut line = line;
        let n = line.points.len();
        let end = line.points[n - 1];
        assert(in_range(line.points@[n - 1]) && in_range(line.points@[n - 2]));
        let d = line.direction();
        let q = advance(end, d.x, d.y, self.length)?;
        line.push(q);
        Ok(line)
    }
}

} // verus!
