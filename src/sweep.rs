//! Self-intersection search by a sweep over the edges' heights.
use vstd::prelude::*;
use crate::point::{Point, segments_cross, all_in_range, in_range};
use crate::polygon::{Polygon, edges_cross, succ, lemma_neighbors};

verus! {

/// The lowest height edge `e` of the closed contour `s` reaches.
pub open spec fn edge_low(s: Seq<Point>, e: int) -> int {
    let a = s[e].y as int;
    let b = s[succ(e, s.len() as int)].y as int;
    if a <= b { a } else { b }
}

/// The highest height edge `e` of the closed contour `s` reaches.
pub open spec fn edge_high(s: Seq<Point>, e: int) -> int {
    let a = s[e].y as int;
    let b = s[succ(e, s.len() as int)].y as int;
    if a <= b { b } else { a }
}

proof fn lemma_between(y0: int, y1: int, num: int, den: int)
    requires
        0 < num < den,
    ensures
        (if y0 <= y1 { y0 } else { y1 }) * den <= y0 * den + num * (y1 - y0) <= (if y0 <= y1 { y1 } else { y0 }) * den,
{
    if y0 <= y1 {
        assert(y0 * den <= y0 * den + num * (y1 - y0)) by (nonlinear_arith)
            requires 0 < num, y0 <= y1;
        assert(y0 * den + num * (y1 - y0) <= y1 * den) by (nonlinear_arith)
            requires num < den, y0 <= y1;
    } else {
        assert(y1 * den <= y0 * den + num * (y1 - y0)) by (nonlinear_arith)
            requires num < den, y1 < y0;
        assert(y0 * den + num * (y1 - y0) <= y0 * den) by (nonlinear_arith)
            requires 0 < num, y1 < y0;
    }
}

proof fn lemma_crossing_identity(ux: int, uy: int, vx: int, vy: int, wx: int, wy: int)
    ensures
        wy * (vy * ux - vx * uy) + (vx * wy - vy * wx) * uy - (ux * wy - uy * wx) * vy == 0,
{
    assert(wy * (vy * ux - vx * uy) == wy * vy * ux - wy * vx * uy) by (nonlinear_arith);
    assert((vx * wy - vy * wx) * uy == vx * wy * uy - vy * wx * uy) by (nonlinear_arith);
    assert((ux * wy - uy * wx) * vy == ux * wy * vy - uy * wx * vy) by (nonlinear_arith);
    assert(wy * vy * ux == ux * wy * vy) by (nonlinear_arith);
    assert(wy * vx * uy == vx * wy * uy) by (nonlinear_arith);
    assert(vy * wx * uy == uy * wx * vy) by (nonlinear_arith);
}

/// Two segments that cross properly overlap in height: the crossing lies on both.
proof fn lemma_crossing_heights(a0: Point, a1: Point, b0: Point, b1: Point)
    requires
        segments_cross(a0, a1, b0, b1),
    ensures
        ({
            let alo = if a0.y <= a1.y { a0.y as int } else { a1.y as int };
            let ahi = if a0.y <= a1.y { a1.y as int } else { a0.y as int };
            let blo = if b0.y <= b1.y { b0.y as int } else { b1.y as int };
            let bhi = if b0.y <= b1.y { b1.y as int } else { b0.y as int };
            blo <= ahi && alo <= bhi
        }),
{
    let d = (b1.y - b0.y) * (a1.x - a0.x) - (b1.x - b0.x) * (a1.y - a0.y);
    let na = (b1.x - b0.x) * (a0.y - b0.y) - (b1.y - b0.y) * (a0.x - b0.x);
    let nb = (a1.x - a0.x) * (a0.y - b0.y) - (a1.y - a0.y) * (a0.x - b0.x);
    lemma_crossing_identity(
        a1.x - a0.x,
        a1.y - a0.y,
        b1.x - b0.x,
        b1.y - b0.y,
        a0.x - b0.x,
        a0.y - b0.y,
    );
    assert(a0.y * d + na * (a1.y - a0.y) == b0.y * d + nb * (b1.y - b0.y)) by (nonlinear_arith)
        requires
            (a0.y - b0.y) * d + na * (a1.y - a0.y) - nb * (b1.y - b0.y) == 0;
    if d > 0 {
        lemma_between(a0.y as int, a1.y as int, na, d);
        lemma_between(b0.y as int, b1.y as int, nb, d);
        let alo = if a0.y <= a1.y { a0.y as int } else { a1.y as int };
        let ahi = if a0.y <= a1.y { a1.y as int } else { a0.y as int };
        let blo = if b0.y <= b1.y { b0.y as int } else { b1.y as int };
        let bhi = if b0.y <= b1.y { b1.y as int } else { b0.y as int };
        assert(blo * d <= ahi * d);
        assert(alo * d <= bhi * d);
        assert(blo <= ahi) by (nonlinear_arith)
            requires blo * d <= ahi * d, d > 0;
        assert(alo <= bhi) by (nonlinear_arith)
            requires alo * d <= bhi * d, d > 0;
    } else {
        let e = -d;
        assert(a0.y * e + (-na) * (a1.y - a0.y) == -(a0.y * d + na * (a1.y - a0.y))) by (nonlinear_arith)
            requires e == -d;
        assert(b0.y * e + (-nb) * (b1.y - b0.y) == -(b0.y * d + nb * (b1.y - b0.y))) by (nonlinear_arith)
            requires e == -d;
        lemma_between(a0.y as int, a1.y as int, -na, e);
        lemma_between(b0.y as int, b1.y as int, -nb, e);
        let alo = if a0.y <= a1.y { a0.y as int } else { a1.y as int };
        let ahi = if a0.y <= a1.y { a1.y as int } else { a0.y as int };
        let blo = if b0.y <= b1.y { b0.y as int } else { b1.y as int };
        let bhi = if b0.y <= b1.y { b1.y as int } else { b0.y as int };
        assert(blo <= ahi) by (nonlinear_arith)
            requires blo * e <= ahi * e, e > 0;
        assert(alo <= bhi) by (nonlinear_arith)
            requires alo * e <= bhi * e, e > 0;
    }
}

/// Edges that cross properly overlap in height.
pub proof fn lemma_crossing_edges_overlap(s: Seq<Point>, a: int, b: int)
    requires
        0 <= a < s.len(),
        0 <= b < s.len(),
        edges_cross(s, a, b),
    ensures
        edge_low(s, b) <= edge_high(s, a),
        edge_low(s, a) <= edge_high(s, b),
{
    let n = s.len() as int;
    lemma_crossing_heights(s[a], s[succ(a, n)], s[b], s[succ(b, n)]);
}

/// Whether two segments cross does not depend on which is named first.
pub proof fn lemma_crossing_symmetric(a0: Point, a1: Point, b0: Point, b1: Point)
    ensures
        segments_cross(a0, a1, b0, b1) == segments_cross(b0, b1, a0, a1),
{
    let d = (b1.y - b0.y) * (a1.x - a0.x) - (b1.x - b0.x) * (a1.y - a0.y);
    let na = (b1.x - b0.x) * (a0.y - b0.y) - (b1.y - b0.y) * (a0.x - b0.x);
    let nb = (a1.x - a0.x) * (a0.y - b0.y) - (a1.y - a0.y) * (a0.x - b0.x);
    let d2 = (a1.y - a0.y) * (b1.x - b0.x) - (a1.x - a0.x) * (b1.y - b0.y);
    let na2 = (a1.x - a0.x) * (b0.y - a0.y) - (a1.y - a0.y) * (b0.x - a0.x);
    let nb2 = (b1.x - b0.x) * (b0.y - a0.y) - (b1.y - b0.y) * (b0.x - a0.x);
    assert(d2 == -d) by (nonlinear_arith)
        requires
            d == (b1.y - b0.y) * (a1.x - a0.x) - (b1.x - b0.x) * (a1.y - a0.y),
            d2 == (a1.y - a0.y) * (b1.x - b0.x) - (a1.x - a0.x) * (b1.y - b0.y);
    assert(na2 == -nb) by (nonlinear_arith)
        requires
            nb == (a1.x - a0.x) * (a0.y - b0.y) - (a1.y - a0.y) * (a0.x - b0.x),
            na2 == (a1.x - a0.x) * (b0.y - a0.y) - (a1.y - a0.y) * (b0.x - a0.x);
    assert(nb2 == -na) by (nonlinear_arith)
        requires
            na == (b1.x - b0.x) * (a0.y - b0.y) - (b1.y - b0.y) * (a0.x - b0.x),
            nb2 == (b1.x - b0.x) * (b0.y - a0.y) - (b1.y - b0.y) * (b0.x - a0.x);
}

/// Edge `a` crosses edge `b` exactly when `b` crosses `a`.
pub proof fn lemma_edges_cross_symmetric(s: Seq<Point>, a: int, b: int)
    ensures
        edges_cross(s, a, b) == edges_cross(s, b, a),
{
    let n = s.len() as int;
    lemma_crossing_symmetric(s[a], s[succ(a, n)], s[b], s[succ(b, n)]);
}

/// `list` holds, without repeats, exactly the edges that edge `a` of `s` crosses.
pub open spec fn crossing_set(s: Seq<Point>, a: int, list: Seq<usize>) -> bool {
    &&& list.no_duplicates()
    &&& forall|k: int| 0 <= k < list.len() ==> #[trigger] list[k] < s.len()
    &&& forall|k: int| 0 <= k < list.len() ==> edges_cross(s, a, #[trigger] list[k] as int)
    &&& forall|b: int| 0 <= b < s.len() && #[trigger] edges_cross(s, a, b) ==> list.contains(b as usize)
}

/// `order` lists every edge of `s` once, by increasing lowest height.
pub open spec fn sweep_ordered(s: Seq<Point>, order: Seq<usize>) -> bool {
    &&& order.len() == s.len()
    &&& order.no_duplicates()
    &&& forall|k: int| 0 <= k < order.len() ==> #[trigger] order[k] < s.len()
    &&& forall|e: usize| e < s.len() ==> #[trigger] order.contains(e)
    &&& forall|k: int, l: int|
        0 <= k < l < order.len() ==> edge_low(s, order[k] as int) <= edge_low(s, order[l] as int)
}

impl Polygon {
    fn edge_span(&self, e: usize) -> (r: (i64, i64))
        requires
            e < self.points@.len(),
        ensures
            r.0 == edge_low(self.points@, e as int),
            r.1 == edge_high(self.points@, e as int),
    {
        let n = self.points.len();
        proof {
            lemma_neighbors(e as int, n as int);
        }
        let a = self.points[e].y;
        let b = self.points[if e + 1 == n { 0 } else { e + 1 }].y;
        if a <= b { (a, b) } else { (b, a) }
    }

    /// The edges by increasing lowest height, equal heights in index order.
    fn sweep_order(&self) -> (order: Vec<usize>)
        ensures
            sweep_ordered(self.points@, order@),
    {
        let n = self.points.len();
        let mut order: Vec<usize> = Vec::with_capacity(n);
        let mut e: usize = 0;
        while e < n
            invariant
                n == self.points@.len(),
                e <= n,
                order@.len() == e,
                order@.no_duplicates(),
                forall|k: int| 0 <= k < order@.len() ==> #[trigger] order@[k] < e,
                forall|x: usize| x < e ==> #[trigger] order@.contains(x),
                forall|k: int, l: int|
                    0 <= k < l < order@.len() ==> edge_low(self.points@, order@[k] as int) <= edge_low(
                        self.points@,
                        order@[l] as int,
                    ),
            decreases n - e,
        {
            let (lo, _) = self.edge_span(e);
            let mut pos: usize = 0;
            while pos < order.len() && self.edge_span(order[pos]).0 <= lo
                invariant
                    n == self.points@.len(),
                    e < n,
                    pos <= order@.len(),
                    forall|k: int| 0 <= k < order@.len() ==> #[trigger] order@[k] < e,
                    forall|k: int| 0 <= k < pos ==> edge_low(self.points@, #[trigger] order@[k] as int) <= lo,
                decreases order@.len() - pos,
            {
                pos = pos + 1;
            }
            let ghost old_order = order@;
            order.insert(pos, e);
            proof {
                old_order.insert_ensures(pos as int, e);
                assert forall|k: int, l: int| 0 <= k < l < order@.len() implies edge_low(
                    self.points@,
                    order@[k] as int,
                ) <= edge_low(self.points@, order@[l] as int) by {
                    if l == pos {
                        assert(edge_low(self.points@, old_order[k] as int) <= lo);
                    } else if k == pos {
                        assert(order@[l] == old_order[l - 1]);
                        assert(edge_low(self.points@, old_order[pos as int] as int) > lo);
                        if l - 1 > pos {
                            assert(edge_low(self.points@, old_order[pos as int] as int) <= edge_low(
                                self.points@,
                                old_order[l - 1] as int,
                            ));
                        }
                    } else {
                        let k0 = if k < pos { k } else { k - 1 };
                        let l0 = if l < pos { l } else { l - 1 };
                        assert(order@[k] == old_order[k0]);
                        assert(order@[l] == old_order[l0]);
                    }
                }
                assert forall|x: int, y: int| 0 <= x < y < order@.len() implies order@[x] != order@[y] by {
                    let x0 = if x < pos { x } else { x - 1 };
                    let y0 = if y < pos { y } else { y - 1 };
                    if x != pos && y != pos {
                        assert(order@[x] == old_order[x0]);
                        assert(order@[y] == old_order[y0]);
                    } else if x == pos {
                        assert(order@[y] == old_order[y0]);
                    } else {
                        assert(order@[x] == old_order[x0]);
                    }
                }
                assert forall|x: usize| x < e + 1 implies #[trigger] order@.contains(x) by {
                    if x == e {
                        assert(order@[pos as int] == e);
                    } else {
                        assert(old_order.contains(x));
                        let k = choose|k: int| 0 <= k < old_order.len() && old_order[k] == x;
                        if k < pos {
                            assert(order@[k] == x);
                        } else {
                            assert(order@[k + 1] == x);
                        }
                    }
                }
                assert forall|k: int| 0 <= k < order@.len() implies #[trigger] order@[k] < e + 1 by {
                    if k < pos {
                        assert(order@[k] == old_order[k]);
                    } else if k > pos {
                        assert(order@[k] == old_order[k - 1]);
                    }
                }
            }
            e = e + 1;
        }
        order
    }

    /// The pairs of edges that cross, each found once by a sweep upward over the edges'
    /// heights: edges enter the sweep by lowest height, leave it once the sweep has
    /// passed their highest point, and each entering edge is tested against the edges
    /// still in it. Each pair comes as (earlier, later) in sweep order.
    fn crossing_pairs(&self) -> (pairs: Vec<(usize, usize)>)
        requires
            self.wf(),
        ensures
            forall|t: int|
                0 <= t < pairs@.len() ==> (#[trigger] pairs@[t]).0 < self.points@.len() && pairs@[t].1
                    < self.points@.len() && edges_cross(self.points@, pairs@[t].0 as int, pairs@[t].1 as int),
            forall|a: int, b: int|
                0 <= a < self.points@.len() && 0 <= b < self.points@.len() && #[trigger] edges_cross(
                    self.points@,
                    a,
                    b,
                ) ==> pairs@.contains((a as usize, b as usize)) || pairs@.contains((b as usize, a as usize)),
    {
        let ghost s = self.points@;
        let n = self.points.len();
        let order = self.sweep_order();
        let mut active: Vec<usize> = Vec::new();
        let mut pairs: Vec<(usize, usize)> = Vec::new();
        let mut idx: usize = 0;
        while idx < n
            invariant
                s == self.points@,
                self.wf(),
                n == s.len(),
                sweep_ordered(s, order@),
                idx <= n,
                forall|j: int| 0 <= j < active@.len() ==> #[trigger] active@[j] < n,
                forall|k: int, k2: int|
                    0 <= k < idx <= k2 < n && !active@.contains(#[trigger] order@[k]) ==> edge_high(
                        s,
                        order@[k] as int,
                    ) < edge_low(s, #[trigger] order@[k2] as int),
                forall|t: int|
                    0 <= t < pairs@.len() ==> (#[trigger] pairs@[t]).0 < n && pairs@[t].1 < n && edges_cross(
                        s,
                        pairs@[t].0 as int,
                        pairs@[t].1 as int,
                    ),
                forall|k1: int, k2: int|
                    0 <= k1 < k2 < idx && edges_cross(s, #[trigger] order@[k1] as int, #[trigger] order@[k2] as int)
                        ==> pairs@.contains((order@[k1], order@[k2])),
            decreases n - idx,
        {
            let b = order[idx];
            let (lo, _) = self.edge_span(b);
            let ghost old_pairs = pairs@;
            let ghost old_active = active@;
            let mut kept: Vec<usize> = Vec::new();
            let mut j: usize = 0;
            while j < active.len()
                invariant
                    s == self.points@,
                    self.wf(),
                    n == s.len(),
                    b < n,
                    lo == edge_low(s, b as int),
                    active@ == old_active,
                    j <= active@.len(),
                    forall|t: int| 0 <= t < active@.len() ==> #[trigger] active@[t] < n,
                    forall|t: int| 0 <= t < kept@.len() ==> #[trigger] kept@[t] < n,
                    forall|t: int|
                        0 <= t < j && edge_high(s, #[trigger] active@[t] as int) >= lo ==> kept@.contains(active@[t]),
                    forall|t: int|
                        0 <= t < j && edge_high(s, #[trigger] active@[t] as int) >= lo && edges_cross(
                            s,
                            active@[t] as int,
                            b as int,
                        ) ==> pairs@.contains((active@[t], b)),
                    forall|t: int|
                        0 <= t < pairs@.len() ==> (#[trigger] pairs@[t]).0 < n && pairs@[t].1 < n && edges_cross(
                            s,
                            pairs@[t].0 as int,
                            pairs@[t].1 as int,
                        ),
                    forall|p: (usize, usize)| old_pairs.contains(p) ==> #[trigger] pairs@.contains(p),
                decreases active@.len() - j,
            {
                let a = active[j];
                let (_, hi) = self.edge_span(a);
                if hi >= lo {
                    let ghost before = kept@;
                    kept.push(a);
                    assert(kept@[kept@.len() - 1] == a);
                    assert forall|t: int|
                        0 <= t < j + 1 && edge_high(s, #[trigger] active@[t] as int) >= lo implies kept@.contains(
                        active@[t],
                    ) by {
                        if t < j {
                            let w = choose|w: int| 0 <= w < before.len() && before[w] == active@[t];
                            assert(kept@[w] == active@[t]);
                        }
                    }
                    if self.edge_crosses(a, b) {
                        let ghost before_pairs = pairs@;
                        pairs.push((a, b));
                        assert(pairs@[pairs@.len() - 1] == (a, b));
                        assert forall|p: (usize, usize)| before_pairs.contains(p) implies #[trigger] pairs@.contains(p) by {
                            let w = choose|w: int| 0 <= w < before_pairs.len() && before_pairs[w] == p;
                            assert(pairs@[w] == p);
                        }
                    }
                }
                j = j + 1;
            }
            let ghost before = kept@;
            kept.push(b);
            assert(kept@[kept@.len() - 1] == b);
            proof {
                assert forall|k: int, k2: int|
                    0 <= k < idx + 1 <= k2 < n && !kept@.contains(#[trigger] order@[k]) implies edge_high(
                        s,
                        order@[k] as int,
                    ) < edge_low(s, #[trigger] order@[k2] as int) by {
                    if k == idx {
                        assert(kept@.contains(order@[k]));
                    } else if old_active.contains(order@[k]) {
                        let t = choose|t: int| 0 <= t < old_active.len() && old_active[t] == order@[k];
                        if edge_high(s, old_active[t] as int) >= lo {
                            let w = choose|w: int| 0 <= w < before.len() && before[w] == old_active[t];
                            assert(kept@[w] == order@[k]);
                        }
                        assert(edge_low(s, order@[idx as int] as int) <= edge_low(s, order@[k2] as int));
                    } else {
                        assert(idx <= k2);
                    }
                }
                assert forall|k1: int, k2: int|
                    0 <= k1 < k2 < idx + 1 && edges_cross(s, #[trigger] order@[k1] as int, #[trigger] order@[k2] as int)
                        implies pairs@.contains((order@[k1], order@[k2])) by {
                    if k2 < idx {
                        assert(old_pairs.contains((order@[k1], order@[k2])));
                    } else {
                        let a = order@[k1];
                        lemma_crossing_edges_overlap(s, a as int, b as int);
                        if !old_active.contains(a) {
                            assert(edge_high(s, a as int) < edge_low(s, order@[idx as int] as int));
                        }
                        let t = choose|t: int| 0 <= t < old_active.len() && old_active[t] == a;
                        assert(edge_high(s, old_active[t] as int) >= lo);
                    }
                }
                assert forall|t: int| 0 <= t < kept@.len() implies #[trigger] kept@[t] < n by {
                    if t < before.len() {
                        assert(kept@[t] == before[t]);
                    }
                }
            }
            active = kept;
            idx = idx + 1;
        }
        proof {
            assert forall|a: int, b: int|
                0 <= a < n && 0 <= b < n && #[trigger] edges_cross(s, a, b) implies pairs@.contains(
                (a as usize, b as usize),
            ) || pairs@.contains((b as usize, a as usize)) by {
                assert(order@.contains(a as usize));
                assert(order@.contains(b as usize));
                let ka = choose|k: int| 0 <= k < order@.len() && order@[k] == a as usize;
                let kb = choose|k: int| 0 <= k < order@.len() && order@[k] == b as usize;
                lemma_edges_cross_symmetric(s, a, b);
                if ka < kb {
                    assert(edges_cross(s, order@[ka] as int, order@[kb] as int));
                } else if kb < ka {
                    assert(edges_cross(s, order@[kb] as int, order@[ka] as int));
                } else {
                    assert(a == b);
                    assert(!edges_cross(s, a, a)) by {
                        lemma_no_self_crossing(s, a);
                    }
                }
            }
        }
        pairs
    }
}

fn holds(list: &Vec<usize>, x: usize) -> (r: bool)
    ensures
        r == list@.contains(x),
{
    let mut k: usize = 0;
    while k < list.len()
        invariant
            k <= list@.len(),
            forall|t: int| 0 <= t < k ==> list@[t] != x,
        decreases list@.len() - k,
    {
        if list[k] == x {
            return true;
        }
        k = k + 1;
    }
    false
}

impl Polygon {
    /// For each edge, the edges it crosses properly, without repeats, found by a sweep
    /// upward over the edges' heights.
    pub fn intersections(&self) -> (r: Vec<Vec<usize>>)
        requires
            self.wf(),
        ensures
            r@.len() == self.points@.len(),
            forall|a: int| 0 <= a < r@.len() ==> crossing_set(self.points@, a, #[trigger] r@[a]@),
    {
        let ghost s = self.points@;
        let n = self.points.len();
        let pairs = self.crossing_pairs();
        let m = pairs.len();
        let mut lists: Vec<Vec<usize>> = Vec::with_capacity(n);
        let mut a: usize = 0;
        while a < n
            invariant
                s == self.points@,
                n == s.len(),
                m == pairs@.len(),
                a <= n,
                lists@.len() == a,
                forall|t: int|
                    0 <= t < m ==> (#[trigger] pairs@[t]).0 < n && pairs@[t].1 < n && edges_cross(
                        s,
                        pairs@[t].0 as int,
                        pairs@[t].1 as int,
                    ),
                forall|x: int, y: int|
                    0 <= x < n && 0 <= y < n && #[trigger] edges_cross(s, x, y) ==> pairs@.contains(
                        (x as usize, y as usize),
                    ) || pairs@.contains((y as usize, x as usize)),
                forall|j: int| 0 <= j < a ==> crossing_set(s, j, #[trigger] lists@[j]@),
            decreases n - a,
        {
            let mut list: Vec<usize> = Vec::new();
            let mut t: usize = 0;
            while t < m
                invariant
                    s == self.points@,
                    n == s.len(),
                    m == pairs@.len(),
                    a < n,
                    t <= m,
                    forall|u: int|
                        0 <= u < m ==> (#[trigger] pairs@[u]).0 < n && pairs@[u].1 < n && edges_cross(
                            s,
                            pairs@[u].0 as int,
                            pairs@[u].1 as int,
                        ),
                    list@.no_duplicates(),
                    forall|k: int| 0 <= k < list@.len() ==> #[trigger] list@[k] < n,
                    forall|k: int| 0 <= k < list@.len() ==> edges_cross(s, a as int, #[trigger] list@[k] as int),
                    forall|u: int| 0 <= u < t && (#[trigger] pairs@[u]).0 == a ==> list@.contains(pairs@[u].1),
                    forall|u: int| 0 <= u < t && (#[trigger] pairs@[u]).1 == a ==> list@.contains(pairs@[u].0),
                decreases m - t,
            {
                let (x, y) = pairs[t];
                let other = if x == a {
                    Some(y)
                } else if y == a {
                    proof {
                        lemma_edges_cross_symmetric(s, x as int, y as int);
                    }
                    Some(x)
                } else {
                    None
                };
                if let Some(o) = other {
                    if !holds(&list, o) {
                        let ghost before = list@;
                        list.push(o);
                        proof {
                            assert(list@[list@.len() - 1] == o);
                            assert forall|i: int, k: int| 0 <= i < k < list@.len() implies list@[i] != list@[k] by {
                                if k == list@.len() - 1 {
                                    assert(list@[i] == before[i]);
                                }
                            }
                            assert forall|u: int| 0 <= u < t && (#[trigger] pairs@[u]).0 == a implies list@.contains(pairs@[u].1) by {
                                let w = choose|w: int| 0 <= w < before.len() && before[w] == pairs@[u].1;
                                assert(list@[w] == pairs@[u].1);
                            }
                            assert forall|u: int| 0 <= u < t && (#[trigger] pairs@[u]).1 == a implies list@.contains(pairs@[u].0) by {
                                let w = choose|w: int| 0 <= w < before.len() && before[w] == pairs@[u].0;
                                assert(list@[w] == pairs@[u].0);
                            }
                        }
                    }
                }
                t = t + 1;
            }
            proof {
                assert forall|b: int| 0 <= b < n && #[trigger] edges_cross(s, a as int, b) implies list@.contains(b as usize) by {
                    if pairs@.contains((a as usize, b as usize)) {
                        let u = choose|u: int| 0 <= u < m && pairs@[u] == (a as usize, b as usize);
                        assert(pairs@[u].0 == a);
                    } else {
                        let u = choose|u: int| 0 <= u < m && pairs@[u] == (b as usize, a as usize);
                        assert(pairs@[u].1 == a);
                    }
                }
            }
            lists.push(list);
            a = a + 1;
        }
        lists
    }
}

/// An edge never crosses itself: parallel segments do not cross.
proof fn lemma_no_self_crossing(s: Seq<Point>, a: int)
    ensures
        !edges_cross(s, a, a),
{
    let n = s.len() as int;
    let a0 = s[a];
    let a1 = s[succ(a, n)];
    assert((a1.y - a0.y) * (a1.x - a0.x) - (a1.x - a0.x) * (a1.y - a0.y) == 0) by (nonlinear_arith);
}

} // verus!
