//! Closed contours and their normalization.
use vstd::prelude::*;
use crate::point::{
    Point, in_range, all_in_range, orient, orientation, lemma_mul_bounded, segments_cross,
    segments_intersect, nearly_straight, is_nearly_straight, dist2, distance_squared, COORD_LIMIT,
};
use crate::error::ShapeError;
use crate::sweep::crossing_set;

verus! {

/// The index after `i` on a closed contour of `n` points.
pub open spec fn succ(i: int, n: int) -> int {
    (i + 1) % n
}

/// The index before `i` on a closed contour of `n` points.
pub open spec fn pred(i: int, n: int) -> int {
    (i + n - 1) % n
}

pub proof fn lemma_neighbors(i: int, n: int)
    requires
        0 <= i < n,
    ensures
        pred(i, n) == if i == 0 { n - 1 } else { i - 1 },
        succ(i, n) == if i + 1 == n { 0 } else { i + 1 },
        0 <= pred(i, n) < n,
        0 <= succ(i, n) < n,
{
    if i == 0 {
        vstd::arithmetic::div_mod::lemma_small_mod((n - 1) as nat, n as nat);
    } else {
        vstd::arithmetic::div_mod::lemma_mod_add_multiples_vanish(i - 1, n);
        vstd::arithmetic::div_mod::lemma_small_mod((i - 1) as nat, n as nat);
    }
    if i + 1 == n {
        vstd::arithmetic::div_mod::lemma_mod_self_0(n);
    } else {
        vstd::arithmetic::div_mod::lemma_small_mod((i + 1) as nat, n as nat);
    }
}

/// The shoelace term of edge `i`: the cross product of its two end points.
pub open spec fn edge_term(s: Seq<Point>, i: int) -> int {
    let a = s[i];
    let b = s[succ(i, s.len() as int)];
    a.x * b.y - b.x * a.y
}

/// The sum of the shoelace terms of the first `k` edges.
pub open spec fn shoelace(s: Seq<Point>, k: int) -> int
    decreases k,
{
    if k <= 0 {
        0
    } else {
        shoelace(s, k - 1) + edge_term(s, k - 1)
    }
}

/// Twice the signed area enclosed by the closed contour `s`.
pub open spec fn area2(s: Seq<Point>) -> int {
    shoelace(s, s.len() as int)
}

/// The contour winds counter-clockwise: its signed area is positive.
pub open spec fn ccw(s: Seq<Point>) -> bool {
    area2(s) > 0
}

/// The contour turns strictly left at vertex `i`.
pub open spec fn left_turn(s: Seq<Point>, i: int) -> bool {
    let n = s.len() as int;
    orient(s[pred(i, n)], s[i], s[succ(i, n)]) > 0
}

/// The contour turns strictly left at every vertex.
pub open spec fn convex(s: Seq<Point>) -> bool {
    forall|i: int| 0 <= i < s.len() ==> #[trigger] left_turn(s, i)
}

/// Edges `a` and `b` of the closed contour `s` cross properly; edge `i` runs from
/// point `i` to the point after it.
pub open spec fn edges_cross(s: Seq<Point>, a: int, b: int) -> bool {
    let n = s.len() as int;
    segments_cross(s[a], s[succ(a, n)], s[b], s[succ(b, n)])
}

/// The highest edge below `k` that edge `a` crosses, or -1 when there is none.
pub open spec fn last_crossing_below(s: Seq<Point>, a: int, k: int) -> int
    decreases k,
{
    if k <= 0 {
        -1
    } else if edges_cross(s, a, k - 1) {
        k - 1
    } else {
        last_crossing_below(s, a, k - 1)
    }
}

/// The highest edge that edge `a` crosses, or -1 when there is none.
pub open spec fn last_crossing(s: Seq<Point>, a: int) -> int {
    last_crossing_below(s, a, s.len() as int)
}

/// The first index that the loop removal may keep once it has passed index `i - 1`.
///
/// Walking the edges in order, an edge `i` that is not inside a loop removed before
/// and crosses a later edge `e` (the last one it crosses) cuts the points `i + 1 ..= e`.
pub open spec fn cut_bound(s: Seq<Point>, i: int) -> int
    decreases i,
{
    if i <= 0 {
        0
    } else {
        let m = cut_bound(s, i - 1);
        let e = last_crossing(s, i - 1);
        if i - 1 >= m && e > i - 1 {
            e + 1
        } else {
            m
        }
    }
}

/// The points among the first `k` that survive the loop removal.
pub open spec fn uncrossed_prefix(s: Seq<Point>, k: int) -> Seq<Point>
    decreases k,
{
    if k <= 0 {
        Seq::empty()
    } else if k - 1 >= cut_bound(s, k - 1) {
        uncrossed_prefix(s, k - 1).push(s[k - 1])
    } else {
        uncrossed_prefix(s, k - 1)
    }
}

/// The contour with the loops of its self-crossings cut away.
pub open spec fn uncrossed(s: Seq<Point>) -> Seq<Point> {
    uncrossed_prefix(s, s.len() as int)
}

/// Point `i` (taken modulo the length) goes in the cleaning pass at position `i`: it
/// repeats the point before it, or the contour runs nearly straight through it.
pub open spec fn redundant_at(s: Seq<Point>, i: int) -> bool {
    let n = s.len() as int;
    s[i - 1] == s[i % n] || nearly_straight(s[i - 1], s[i % n], s[(i + 1) % n])
}

/// The cleaning pass from position `i` on: a redundant point is removed and its
/// position looked at again, otherwise the pass moves on, up to and including the
/// closing position `len`, which stands for point 0.
pub open spec fn cleaned_from(s: Seq<Point>, i: int) -> Seq<Point>
    decreases 2 * s.len() + 2 - i,
{
    if i < 1 || i > s.len() {
        s
    } else if redundant_at(s, i) {
        cleaned_from(s.remove(i % (s.len() as int)), i)
    } else {
        cleaned_from(s, i + 1)
    }
}

/// The contour with repeated and nearly collinear points removed.
pub open spec fn cleaned(s: Seq<Point>) -> Seq<Point> {
    cleaned_from(s, 1)
}

/// The points that `make_simple` leaves.
pub open spec fn simplified(s: Seq<Point>, is_simple: bool) -> Seq<Point> {
    if is_simple {
        s
    } else if convex(cleaned(s)) {
        cleaned(s)
    } else {
        cleaned(uncrossed(cleaned(s)))
    }
}

/// The points that `verify` leaves: simplified, then turned counter-clockwise.
pub open spec fn verified(s: Seq<Point>, is_simple: bool) -> Seq<Point> {
    let t = simplified(s, is_simple);
    if ccw(t) {
        t
    } else {
        reversed(t)
    }
}

/// The points of `s` in the opposite order.
pub open spec fn reversed(s: Seq<Point>) -> Seq<Point> {
    Seq::new(s.len(), |i: int| s[s.len() - 1 - i])
}

proof fn lemma_reversed_prefix(s: Seq<Point>, k: int)
    requires
        0 <= k < s.len(),
    ensures
        shoelace(reversed(s), k) == shoelace(s, s.len() - 1 - k) - shoelace(s, s.len() - 1),
    decreases k,
{
    let n = s.len() as int;
    let r = reversed(s);
    if k > 0 {
        lemma_reversed_prefix(s, k - 1);
        lemma_neighbors(k - 1, n);
        lemma_neighbors(n - 1 - k, n);
        assert(edge_term(r, k - 1) == -edge_term(s, n - 1 - k));
    }
}

/// Reversing a contour negates its signed area.
pub proof fn lemma_area_reversed(s: Seq<Point>)
    ensures
        area2(reversed(s)) == -area2(s),
{
    let n = s.len() as int;
    if n > 0 {
        let r = reversed(s);
        lemma_reversed_prefix(s, n - 1);
        lemma_neighbors(n - 1, n);
        assert(edge_term(r, n - 1) == -edge_term(s, n - 1));
    }
}

/// After `verify`, a contour that encloses any area winds counter-clockwise.
pub proof fn lemma_verified_ccw(s: Seq<Point>, is_simple: bool)
    ensures
        area2(verified(s, is_simple)) != 0 ==> ccw(verified(s, is_simple)),
{
    lemma_area_reversed(simplified(s, is_simple));
}

/// Verifying twice leaves the same points as verifying once, for every contour whose
/// verified form encloses some area.
pub proof fn lemma_verify_idempotent(s: Seq<Point>, is_simple: bool)
    requires
        area2(verified(s, is_simple)) != 0,
    ensures
        verified(verified(s, is_simple), true) == verified(s, is_simple),
{
    lemma_verified_ccw(s, is_simple);
}

/// The points of `v` in the opposite order.
fn reverse_points(v: &Vec<Point>) -> (r: Vec<Point>)
    ensures
        r@ == reversed(v@),
{
    let n = v.len();
    let mut r: Vec<Point> = Vec::with_capacity(n);
    let mut i: usize = 0;
    while i < n
        invariant
            n == v@.len(),
            i <= n,
            r@.len() == i,
            forall|j: int| 0 <= j < i ==> r@[j] == v@[n - 1 - j],
        decreases n - i,
    {
        r.push(v[n - 1 - i]);
        i = i + 1;
    }
    assert(r@ =~= reversed(v@));
    r
}

/// `i` is the hole's topmost point, the last one among points of equal height.
pub open spec fn is_top(h: Seq<Point>, i: int) -> bool {
    &&& 0 <= i < h.len()
    &&& forall|j: int| 0 <= j < h.len() ==> #[trigger] h[j].y <= h[i].y
    &&& forall|j: int| i < j < h.len() ==> #[trigger] h[j].y < h[i].y
}

/// `p` is the point of `o` strictly above `t` that lies nearest to it, the first one
/// among points at equal distance.
pub open spec fn is_bridge(o: Seq<Point>, t: Point, p: int) -> bool {
    &&& 0 <= p < o.len()
    &&& o[p].y > t.y
    &&& forall|q: int| 0 <= q < o.len() && #[trigger] o[q].y > t.y ==> dist2(o[p], t) <= dist2(o[q], t)
    &&& forall|q: int| 0 <= q < p && #[trigger] o[q].y > t.y ==> dist2(o[p], t) < dist2(o[q], t)
}

/// Some point of `o` lies strictly above every point of the non-empty hole `h`.
pub open spec fn bridgeable(o: Seq<Point>, h: Seq<Point>) -> bool {
    &&& h.len() > 0
    &&& exists|q: int| 0 <= q < o.len() && #[trigger] above_all(h, o[q])
}

/// `t` lies strictly above every point of `h`.
pub open spec fn above_all(h: Seq<Point>, t: Point) -> bool {
    forall|j: int| 0 <= j < h.len() ==> #[trigger] h[j].y < t.y
}

/// The topmost point of the non-empty hole `h` (see [`is_top`]).
pub open spec fn top_of(h: Seq<Point>) -> int {
    choose|i: int| is_top(h, i)
}

/// The point of `o` that a hole whose top is `t` bridges to (see [`is_bridge`]).
pub open spec fn bridge_of(o: Seq<Point>, t: Point) -> int {
    choose|p: int| is_bridge(o, t, p)
}

/// `o` with the hole `h` spliced in from its topmost point to the point of `o` that
/// bridges to it.
pub open spec fn spliced(o: Seq<Point>, h: Seq<Point>) -> Seq<Point> {
    let i = top_of(h);
    bridged(o, h, i, bridge_of(o, h[i]))
}

/// `o` with the holes `hs` spliced in one after another, or `None` when one of them
/// cannot be bridged to the contour built so far.
pub open spec fn merged(o: Seq<Point>, hs: Seq<Seq<Point>>) -> Option<Seq<Point>>
    decreases hs.len(),
{
    if hs.len() == 0 {
        Some(o)
    } else if bridgeable(o, hs[0]) {
        merged(spliced(o, hs[0]), hs.drop_first())
    } else {
        None
    }
}

proof fn lemma_top_unique(h: Seq<Point>, i: int)
    requires
        is_top(h, i),
    ensures
        top_of(h) == i,
{
    let j = top_of(h);
    assert(is_top(h, j));
    if j < i {
        assert(h[i].y < h[j].y);
    } else if i < j {
        assert(h[j].y < h[i].y);
    }
}

proof fn lemma_bridge_unique(o: Seq<Point>, t: Point, p: int)
    requires
        is_bridge(o, t, p),
    ensures
        bridge_of(o, t) == p,
{
    let q = bridge_of(o, t);
    assert(is_bridge(o, t, q));
    if q < p {
        assert(dist2(o[p], t) < dist2(o[q], t));
    } else if p < q {
        assert(dist2(o[q], t) < dist2(o[p], t));
    }
}

/// The hole walked backwards from its point `i` and closed by repeating that point.
pub open spec fn hole_loop(h: Seq<Point>, i: int) -> Seq<Point> {
    let m = h.len() as int;
    Seq::new((m + 1) as nat, |k: int| if k <= i { h[i - k] } else { h[i + m - k] })
}

/// `o` with the hole spliced in after its point `p`: the hole loop from point `i` of
/// the hole, then `p` repeated, so that a zero-width bridge joins the two contours.
pub open spec fn bridged(o: Seq<Point>, h: Seq<Point>, i: int, p: int) -> Seq<Point> {
    o.subrange(0, p + 1) + hole_loop(h, i) + seq![o[p]] + o.subrange(p + 1, o.len() as int)
}

/// The highest crossing below `k` crosses, and no edge between it and `k` does.
proof fn lemma_last_crossing_below(s: Seq<Point>, a: int, k: int)
    requires
        0 <= k,
    ensures
        ({
            let e = last_crossing_below(s, a, k);
            ||| (e == -1 && forall|b: int| 0 <= b < k ==> !#[trigger] edges_cross(s, a, b))
            ||| (0 <= e < k && edges_cross(s, a, e) && forall|b: int| e < b < k ==> !#[trigger] edges_cross(s, a, b))
        }),
    decreases k,
{
    if k > 0 {
        lemma_last_crossing_below(s, a, k - 1);
    }
}

/// The largest entry of `list`, if any.
fn highest(list: &Vec<usize>) -> (r: Option<usize>)
    ensures
        r is None <==> list@.len() == 0,
        r matches Some(m) ==> list@.contains(m) && forall|k: int| 0 <= k < list@.len() ==> #[trigger] list@[k] <= m,
{
    if list.len() == 0 {
        return None;
    }
    let mut m = list[0];
    let mut k: usize = 1;
    while k < list.len()
        invariant
            1 <= k <= list@.len(),
            list@.contains(m),
            forall|t: int| 0 <= t < k ==> #[trigger] list@[t] <= m,
        decreases list@.len() - k,
    {
        if list[k] > m {
            m = list[k];
        }
        k = k + 1;
    }
    Some(m)
}

/// The largest entry of the crossing set of edge `a` is its last crossing.
proof fn lemma_last_crossing_is_highest(s: Seq<Point>, a: int, list: Seq<usize>, last: Option<usize>)
    requires
        0 <= a < s.len() <= usize::MAX,
        crossing_set(s, a, list),
        last is None <==> list.len() == 0,
        last matches Some(m) ==> list.contains(m) && forall|k: int| 0 <= k < list.len() ==> #[trigger] list[k] <= m,
    ensures
        match last {
            Some(e) => e as int == last_crossing(s, a),
            None => last_crossing(s, a) == -1,
        },
{
    let n = s.len() as int;
    lemma_last_crossing_below(s, a, n);
    let e = last_crossing(s, a);
    if let Some(m) = last {
        let k = choose|k: int| 0 <= k < list.len() && list[k] == m;
        assert(list[k] == m);
        assert(edges_cross(s, a, m as int));
        assert(m < n);
        if e == -1 {
            assert(!edges_cross(s, a, m as int));
        } else {
            assert(0 <= e < n && edges_cross(s, a, e));
            assert(list.contains(e as usize));
            let j = choose|j: int| 0 <= j < list.len() && list[j] == e as usize;
            assert(list[j] <= m);
            if (m as int) > e {
                assert(!edges_cross(s, a, m as int));
            }
        }
    } else {
        if e != -1 {
            assert(0 <= e < n && edges_cross(s, a, e));
            assert(list.contains(e as usize));
        }
    }
}

/// A closed polygon: the last point connects back to the first.
///
/// `is_ccw` and `is_convex` cache the winding and the convexity of `points`; each is
/// either unset or right. `is_simple` records that the points were found, or are known
/// by construction, to be free of self-intersections, so that normalization may skip them.
#[derive(Debug)]
pub struct Polygon {
    pub points: Vec<Point>,
    pub is_ccw: Option<bool>,
    pub is_convex: Option<bool>,
    pub is_simple: bool,
}

impl Default for Polygon {
    /// An empty polygon, with nothing cached.
    fn default() -> (r: Polygon)
        ensures
            r.wf(),
            r.points@.len() == 0,
            r.is_ccw is None,
            r.is_convex is None,
            !r.is_simple,
    {
        Polygon::new()
    }
}

impl Polygon {
    /// All points are in range and the cached classifications agree with them.
    pub open spec fn wf(&self) -> bool {
        &&& all_in_range(self.points@)
        &&& (self.is_ccw matches Some(b) ==> b == ccw(self.points@))
        &&& (self.is_convex matches Some(b) ==> b == convex(self.points@))
    }

    /// An empty polygon, with nothing cached.
    pub fn new() -> (r: Polygon)
        ensures
            r.wf(),
            r.points@ == Seq::<Point>::empty(),
            r.is_ccw is None,
            r.is_convex is None,
            !r.is_simple,
    {
        Polygon { points: Vec::new(), is_ccw: None, is_convex: None, is_simple: false }
    }

    /// An empty polygon with room for `capacity` points.
    pub fn with_capacity(capacity: usize) -> (r: Polygon)
        ensures
            r.wf(),
            r.points@ == Seq::<Point>::empty(),
            r.is_ccw is None,
            r.is_convex is None,
            !r.is_simple,
    {
        Polygon { points: Vec::with_capacity(capacity), is_ccw: None, is_convex: None, is_simple: false }
    }

    /// The polygon through `points`, with nothing cached.
    pub fn from_points(points: Vec<Point>) -> (r: Polygon)
        requires
            all_in_range(points@),
        ensures
            r.wf(),
            r.points@ == points@,
            r.is_ccw is None,
            r.is_convex is None,
            !r.is_simple,
    {
        Polygon { points, is_ccw: None, is_convex: None, is_simple: false }
    }

    /// Appends a point; the classifications no longer hold and are cleared.
    pub fn push(&mut self, point: Point)
        requires
            old(self).wf(),
            in_range(point),
        ensures
            final(self).wf(),
            final(self).points@ == old(self).points@.push(point),
            final(self).is_ccw is None,
            final(self).is_convex is None,
            !final(self).is_simple,
    {
        self.points.push(point);
        self.is_ccw = None;
        self.is_convex = None;
        self.is_simple = false;
    }

    /// Whether the polygon winds counter-clockwise, by the sign of its shoelace sum.
    pub fn is_ccw(&mut self) -> (r: bool)
        requires
            old(self).wf(),
        ensures
            final(self).wf(),
            r == ccw(old(self).points@),
            final(self).points == old(self).points,
            final(self).is_ccw == Some(r),
            final(self).is_convex == old(self).is_convex,
            final(self).is_simple == old(self).is_simple,
    {
        if let Some(b) = self.is_ccw {
            return b;
        }
        let n = self.points.len();
        let bound: i128 = 2199023255552;
        let mut sum: i128 = 0;
        let mut i: usize = 0;
        while i < n
            invariant
                n == self.points@.len(),
                all_in_range(self.points@),
                i <= n,
                sum == shoelace(self.points@, i as int),
                -(i as int) * bound <= sum <= (i as int) * bound,
                bound == 2 * COORD_LIMIT * COORD_LIMIT,
                *self == *old(self),
                old(self).wf(),
            decreases n - i,
        {
            let next = if i + 1 == n { 0 } else { i + 1 };
            proof { lemma_neighbors(i as int, n as int); }
            let a = self.points[i];
            let b = self.points[next];
            proof {
                assert(in_range(self.points@[i as int]));
                assert(in_range(self.points@[next as int]));
                lemma_mul_bounded(a.x as int, b.y as int, COORD_LIMIT as int, COORD_LIMIT as int);
                lemma_mul_bounded(b.x as int, a.y as int, COORD_LIMIT as int, COORD_LIMIT as int);
                assert((i as int + 1) * bound == (i as int) * bound + bound) by (nonlinear_arith);
                assert(-(i as int + 1) * bound == -(i as int) * bound - bound) by (nonlinear_arith);
                assert((i as int + 1) * bound <= 0x1_0000_0000_0000_0000 * bound) by (nonlinear_arith)
                    requires i < n, n <= usize::MAX, bound >= 0;
            }
            let term = (a.x as i128) * (b.y as i128) - (b.x as i128) * (a.y as i128);
            assert(-bound <= term <= bound);
            assert(sum + term <= (i as int + 1) * bound);
            assert(sum + term >= -(i as int + 1) * bound);
            assert((i as int + 1) * bound < i128::MAX);
            assert(-(i as int + 1) * bound == -((i as int + 1) * bound)) by (nonlinear_arith);
            sum = sum + term;
            i = i + 1;
        }
        let r = sum > 0;
        self.is_ccw = Some(r);
        r
    }

    /// Whether the polygon turns strictly left at every vertex.
    pub fn is_convex(&mut self) -> (r: bool)
        requires
            old(self).wf(),
        ensures
            final(self).wf(),
            r == convex(old(self).points@),
            final(self).points == old(self).points,
            final(self).is_ccw == old(self).is_ccw,
            final(self).is_convex == Some(r),
            final(self).is_simple == old(self).is_simple,
    {
        if let Some(b) = self.is_convex {
            return b;
        }
        let n = self.points.len();
        let mut i: usize = 0;
        while i < n
            invariant
                n == self.points@.len(),
                all_in_range(self.points@),
                i <= n,
                forall|j: int| 0 <= j < i ==> #[trigger] left_turn(self.points@, j),
                *self == *old(self),
                old(self).wf(),
            decreases n - i,
        {
            let prev = if i == 0 { n - 1 } else { i - 1 };
            let next = if i + 1 == n { 0 } else { i + 1 };
            proof { lemma_neighbors(i as int, n as int); }
            let p0 = self.points[prev];
            let p1 = self.points[i];
            let p2 = self.points[next];
            if orientation(p0, p1, p2) <= 0 {
                assert(!left_turn(self.points@, i as int));
                self.is_convex = Some(false);
                return false;
            }
            i = i + 1;
        }
        self.is_convex = Some(true);
        true
    }
}

impl Polygon {
    /// Whether edges `a` and `b` cross properly.
    pub(crate) fn edge_crosses(&self, a: usize, b: usize) -> (r: bool)
        requires
            all_in_range(self.points@),
            a < self.points@.len(),
            b < self.points@.len(),
        ensures
            r == edges_cross(self.points@, a as int, b as int),
    {
        let n = self.points.len();
        let a1 = if a + 1 == n { 0 } else { a + 1 };
        let b1 = if b + 1 == n { 0 } else { b + 1 };
        proof {
            lemma_neighbors(a as int, n as int);
            lemma_neighbors(b as int, n as int);
        }
        segments_intersect(self.points[a], self.points[a1], self.points[b], self.points[b1])
    }

    /// Cuts away the loops that self-crossings form. With the crossings that
    /// [`Polygon::intersections`] finds, the edges are walked in order: an edge outside
    /// the loops cut so far that crosses later edges is joined directly to the last of
    /// them, dropping the points between. Winding and convexity are cleared.
    pub fn remove_intersection(&mut self)
        requires
            old(self).wf(),
        ensures
            final(self).wf(),
            final(self).points@ == uncrossed(old(self).points@),
            final(self).is_ccw is None,
            final(self).is_convex is None,
            final(self).is_simple == old(self).is_simple,
    {
        let n = self.points.len();
        let crossings = self.intersections();
        let mut out: Vec<Point> = Vec::with_capacity(n);
        let mut max: usize = 0;
        let mut i: usize = 0;
        while i < n
            invariant
                n == self.points@.len(),
                all_in_range(self.points@),
                crossings@.len() == n,
                forall|a: int| 0 <= a < n ==> crossing_set(self.points@, a, #[trigger] crossings@[a]@),
                i <= n,
                max as int == cut_bound(self.points@, i as int),
                out@ == uncrossed_prefix(self.points@, i as int),
                all_in_range(out@),
            decreases n - i,
        {
            if i >= max {
                out.push(self.points[i]);
                let last = highest(&crossings[i]);
                proof {
                    lemma_last_crossing_is_highest(self.points@, i as int, crossings@[i as int]@, last);
                }
                if let Some(e) = last {
                    if e > i {
                        max = e + 1;
                    }
                }
            }
            i = i + 1;
        }
        self.points = out;
        self.is_ccw = None;
        self.is_convex = None;
    }

    /// Removes points that repeat their predecessor and points where the contour runs
    /// nearly straight, looking again at each position after a removal.
    pub fn clean(&mut self)
        requires
            old(self).wf(),
        ensures
            final(self).wf(),
            final(self).points@ == cleaned(old(self).points@),
            final(self).is_ccw is None,
            final(self).is_convex is None,
            final(self).is_simple == old(self).is_simple,
    {
        self.is_ccw = None;
        self.is_convex = None;
        let ghost start = self.points@;
        let mut i: usize = 1;
        let mut finished = false;
        while !finished && i <= self.points.len()
            invariant
                1 <= i <= self.points@.len() + 1,
                all_in_range(self.points@),
                self.is_ccw is None,
                self.is_convex is None,
                self.is_simple == old(self).is_simple,
                !finished ==> cleaned_from(self.points@, i as int) == cleaned(start),
                finished ==> self.points@ == cleaned(start),
                start == old(self).points@,
            decreases 2 * self.points@.len() + 2 - i + (if finished { 0int } else { 1int }),
        {
            let n = self.points.len();
            let cur = if i == n { 0 } else { i };
            let nxt = if cur + 1 == n { 0 } else { cur + 1 };
            proof {
                lemma_neighbors(cur as int, n as int);
                if i == n {
                    vstd::arithmetic::div_mod::lemma_mod_self_0(n as int);
                    vstd::arithmetic::div_mod::lemma_mod_add_multiples_vanish(1, n as int);
                } else {
                    vstd::arithmetic::div_mod::lemma_small_mod(i as nat, n as nat);
                }
                assert(cur as int == (i as int) % (n as int));
                assert(nxt as int == (i as int + 1) % (n as int));
            }
            let p0 = self.points[i - 1];
            let p1 = self.points[cur];
            let p2 = self.points[nxt];
            if p0 == p1 || is_nearly_straight(p0, p1, p2) {
                assert(redundant_at(self.points@, i as int));
                self.points.remove(cur);
            } else {
                assert(!redundant_at(self.points@, i as int));
                if i == n {
                    assert(cleaned_from(self.points@, i as int + 1) == self.points@);
                    finished = true;
                } else {
                    i = i + 1;
                }
            }
        }
    }

    /// Makes the polygon simple, unless it is already marked so: cleans it and, when it
    /// is not convex, cuts away its self-crossings and cleans it again. The polygon is
    /// then marked simple.
    pub fn make_simple(&mut self)
        requires
            old(self).wf(),
        ensures
            final(self).wf(),
            final(self).points@ == simplified(old(self).points@, old(self).is_simple),
            final(self).is_simple,
            old(self).is_simple ==> *final(self) == *old(self),
    {
        if self.is_simple {
            return;
        }
        self.clean();
        if !self.is_convex() {
            self.remove_intersection();
            self.clean();
        }
        self.is_simple = true;
    }

    /// Normalizes the polygon: makes it simple, then reverses it unless it winds
    /// counter-clockwise.
    pub fn verify(&mut self)
        requires
            old(self).wf(),
        ensures
            final(self).wf(),
            final(self).points@ == verified(old(self).points@, old(self).is_simple),
            final(self).is_simple,
            area2(final(self).points@) != 0 ==> ccw(final(self).points@),
    {
        proof {
            lemma_verified_ccw(self.points@, self.is_simple);
        }
        self.make_simple();
        if !self.is_ccw() {
            self.points = reverse_points(&self.points);
            self.is_ccw = None;
            self.is_convex = None;
        }
    }
}

impl Polygon {
    /// Splices `hole` into this contour through a zero-width bridge, so that one contour
    /// describes the polygon with its hole. The bridge runs from the hole's topmost point
    /// to the nearest point of this contour strictly above it; [`Polygon::can_bridge`] tells
    /// whether there is one. The classifications are cleared.
    pub fn merge_hole(&mut self, hole: Polygon)
        requires
            old(self).wf(),
            hole.wf(),
            bridgeable(old(self).points@, hole.points@),
        ensures
            final(self).wf(),
            final(self).points@ == spliced(old(self).points@, hole.points@),
            final(self).is_ccw is None,
            final(self).is_convex is None,
            !final(self).is_simple,
    {
        let o = &self.points;
        let h = &hole.points;
        let n = o.len();
        let m = h.len();
        let mut i: usize = 0;
        let mut k: usize = 1;
        while k < m
            invariant
                m == h@.len(),
                1 <= k <= m,
                i < k,
                forall|j: int| 0 <= j < k ==> #[trigger] h@[j].y <= h@[i as int].y,
                forall|j: int| i < j < k ==> #[trigger] h@[j].y < h@[i as int].y,
            decreases m - k,
        {
            if h[k].y >= h[i].y {
                i = k;
            }
            k = k + 1;
        }
        assert(is_top(h@, i as int));
        let t = h[i];
        assert(in_range(h@[i as int]));
        let mut p: usize = 0;
        let mut best: i64 = 0;
        let mut found = false;
        let mut q: usize = 0;
        while q < n
            invariant
                n == o@.len(),
                all_in_range(o@),
                in_range(t),
                q <= n,
                found <==> exists|q2: int| 0 <= q2 < q && #[trigger] o@[q2].y > t.y,
                found ==> p < q && o@[p as int].y > t.y && best == dist2(o@[p as int], t),
                found ==> forall|q2: int| 0 <= q2 < q && #[trigger] o@[q2].y > t.y ==> best <= dist2(o@[q2], t),
                found ==> forall|q2: int| 0 <= q2 < p && #[trigger] o@[q2].y > t.y ==> best < dist2(o@[q2], t),
            decreases n - q,
        {
            if o[q].y > t.y {
                let d = distance_squared(o[q], t);
                if !found || d < best {
                    p = q;
                    best = d;
                    found = true;
                }
            }
            q = q + 1;
        }
        proof {
            let q2 = choose|q2: int| 0 <= q2 < o@.len() && #[trigger] above_all(h@, o@[q2]);
            assert(h@[i as int].y < o@[q2].y);
            assert(found);
        }
        assert(is_bridge(o@, t, p as int));
        proof {
            lemma_top_unique(h@, i as int);
            lemma_bridge_unique(o@, t, p as int);
        }
        let mut out: Vec<Point> = Vec::new();
        let mut j: usize = 0;
        while j <= p
            invariant
                p < n,
                n == o@.len(),
                j <= p + 1,
                out@ == o@.subrange(0, j as int),
            decreases p + 1 - j,
        {
            out.push(o[j]);
            j = j + 1;
            assert(out@ =~= o@.subrange(0, j as int));
        }
        let ghost front = out@;
        let mut k: usize = 0;
        while k < m
            invariant
                i < m,
                m == h@.len(),
                k <= m,
                out@ == front + hole_loop(h@, i as int).subrange(0, k as int),
            decreases m + 1 - k,
        {
            let idx = if k <= i { i - k } else { m - (k - i) };
            out.push(h[idx]);
            k = k + 1;
            assert(out@ =~= front + hole_loop(h@, i as int).subrange(0, k as int));
        }
        out.push(h[i]);
        assert(out@ =~= front + hole_loop(h@, i as int).subrange(0, m as int + 1));
        assert(hole_loop(h@, i as int).subrange(0, m as int + 1) =~= hole_loop(h@, i as int));
        out.push(o[p]);
        let ghost middle = out@;
        let mut j: usize = p + 1;
        while j < n
            invariant
                p < n,
                n == o@.len(),
                p + 1 <= j <= n,
                out@ == middle + o@.subrange(p as int + 1, j as int),
            decreases n - j,
        {
            out.push(o[j]);
            j = j + 1;
            assert(out@ =~= middle + o@.subrange(p as int + 1, j as int));
        }
        assert(out@ =~= bridged(o@, h@, i as int, p as int));
        assert(all_in_range(out@)) by {
            assert forall|x: int| 0 <= x < out@.len() implies in_range(#[trigger] out@[x]) by {
                let b = bridged(o@, h@, i as int, p as int);
                if x <= p {
                    assert(out@[x] == o@[x]);
                } else if x <= p + m + 1 {
                    let kk = x - p - 1;
                    assert(out@[x] == hole_loop(h@, i as int)[kk]);
                } else if x == p + m + 2 {
                    assert(out@[x] == o@[p as int]);
                } else {
                    assert(out@[x] == o@[x - m - 2]);
                }
            }
        }
        self.points = out;
        self.is_ccw = None;
        self.is_convex = None;
        self.is_simple = false;
    }

    /// Whether `hole` can be bridged into this contour: it has points, and some point of
    /// this contour lies strictly above all of them.
    pub fn can_bridge(&self, hole: &Polygon) -> (r: bool)
        ensures
            r == bridgeable(self.points@, hole.points@),
    {
        let o = &self.points;
        let h = &hole.points;
        let m = h.len();
        if m == 0 {
            return false;
        }
        let mut top = h[0].y;
        let mut k: usize = 1;
        while k < m
            invariant
                m == h@.len(),
                1 <= k <= m,
                exists|j: int| 0 <= j < k && h@[j].y == top,
                forall|j: int| 0 <= j < k ==> #[trigger] h@[j].y <= top,
            decreases m - k,
        {
            if h[k].y > top {
                top = h[k].y;
            }
            k = k + 1;
        }
        let n = o.len();
        let mut q: usize = 0;
        while q < n
            invariant
                n == o@.len(),
                m == h@.len(),
                m > 0,
                o@ == self.points@,
                h@ == hole.points@,
                q <= n,
                exists|j: int| 0 <= j < m && h@[j].y == top,
                forall|j: int| 0 <= j < m ==> #[trigger] h@[j].y <= top,
                forall|q2: int| 0 <= q2 < q ==> !#[trigger] above_all(h@, o@[q2]),
            decreases n - q,
        {
            if o[q].y > top {
                assert(above_all(h@, o@[q as int]));
                assert(bridgeable(o@, h@));
                return true;
            }
            proof {
                let j = choose|j: int| 0 <= j < m && h@[j].y == top;
                assert(!(h@[j].y < o@[q as int].y));
            }
            q = q + 1;
        }
        false
    }
}

} // verus!
