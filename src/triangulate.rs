//! Ear-clipping triangulation.
use vstd::prelude::*;
use crate::point::{Point, all_in_range, orient, orientation};
use crate::polygon::{Polygon, succ, pred, edge_term, shoelace, area2, convex, left_turn, lemma_neighbors};
use crate::error::ShapeError;

verus! {

/// The index after `k` on a ring of `len` entries.
pub open spec fn ring_next(k: int, len: int) -> int {
    if k + 1 == len { 0 } else { k + 1 }
}

/// The index before `k` on a ring of `len` entries.
pub open spec fn ring_prev(k: int, len: int) -> int {
    if k == 0 { len - 1 } else { k - 1 }
}

proof fn lemma_shoelace_agree(s: Seq<Point>, u: Seq<Point>, k: int)
    requires
        0 <= k <= s.len(),
        k <= u.len(),
        forall|i: int| 0 <= i < k ==> #[trigger] edge_term(s, i) == edge_term(u, i),
    ensures
        shoelace(s, k) == shoelace(u, k),
    decreases k,
{
    if k > 0 {
        lemma_shoelace_agree(s, u, k - 1);
    }
}

proof fn lemma_cross_sum(a: Point, b: Point, c: Point)
    ensures
        (a.x * b.y - b.x * a.y) + (b.x * c.y - c.x * b.y) - (a.x * c.y - c.x * a.y) == orient(a, b, c),
{
    let (ax, ay, bx, by_, cx, cy) = (a.x as int, a.y as int, b.x as int, b.y as int, c.x as int, c.y as int);
    assert((bx - ax) * (cy - ay) == bx * cy - bx * ay - ax * cy + ax * ay) by (nonlinear_arith);
    assert((by_ - ay) * (cx - ax) == by_ * cx - by_ * ax - ay * cx + ay * ax) by (nonlinear_arith);
    assert(ax * ay == ay * ax) by (nonlinear_arith);
    assert(bx * ay == ay * bx && by_ * ax == ax * by_ && by_ * cx == cx * by_ && ay * cx == cx * ay)
        by (nonlinear_arith);
}

proof fn lemma_rotate_prefix(s: Seq<Point>, k: int)
    requires
        s.len() >= 2,
        0 <= k <= s.len() - 1,
    ensures
        shoelace(s.subrange(1, s.len() as int).push(s[0]), k) == shoelace(s, k + 1) - shoelace(s, 1),
    decreases k,
{
    let m = s.len() as int;
    let r = s.subrange(1, m).push(s[0]);
    if k > 0 {
        lemma_rotate_prefix(s, k - 1);
        lemma_neighbors(k - 1, m);
        lemma_neighbors(k, m);
        assert(edge_term(r, k - 1) == edge_term(s, k));
    }
}

/// Moving the first point of a contour to its end keeps its signed area.
proof fn lemma_area_rotate_one(s: Seq<Point>)
    requires
        s.len() >= 1,
    ensures
        area2(s.subrange(1, s.len() as int).push(s[0])) == area2(s),
{
    let m = s.len() as int;
    let r = s.subrange(1, m).push(s[0]);
    if m == 1 {
        assert(r =~= s);
    } else {
        lemma_rotate_prefix(s, m - 1);
        lemma_neighbors(m - 1, m);
        lemma_neighbors(0, m);
        assert(edge_term(r, m - 1) == edge_term(s, 0));
        assert(shoelace(s, 0) == 0);
        assert(shoelace(s, 1) == edge_term(s, 0));
        assert(shoelace(r, m) == shoelace(r, m - 1) + edge_term(r, m - 1));
    }
}

/// A contour has the same signed area whichever of its points it starts from.
pub proof fn lemma_area_rotate(a: Seq<Point>, b: Seq<Point>)
    ensures
        area2(a + b) == area2(b + a),
    decreases a.len(),
{
    if a.len() == 0 {
        assert(a + b =~= b);
        assert(b + a =~= b);
    } else {
        let s = a + b;
        lemma_area_rotate_one(s);
        let a1 = a.subrange(1, a.len() as int);
        let b1 = b.push(a[0]);
        assert(s.subrange(1, s.len() as int).push(s[0]) =~= a1 + b1);
        lemma_area_rotate(a1, b1);
        assert(b1 + a1 =~= b + a);
    }
}

proof fn lemma_area_drop_last(s: Seq<Point>)
    requires
        s.len() >= 3,
    ensures
        area2(s) == area2(s.drop_last()) + orient(s[s.len() - 2], s[s.len() - 1], s[0]),
{
    let m = s.len() as int;
    let u = s.drop_last();
    assert forall|i: int| 0 <= i < m - 2 implies #[trigger] edge_term(s, i) == edge_term(u, i) by {
        lemma_neighbors(i, m);
        lemma_neighbors(i, m - 1);
    }
    lemma_shoelace_agree(s, u, m - 2);
    lemma_neighbors(m - 2, m);
    lemma_neighbors(m - 1, m);
    lemma_neighbors(m - 2, m - 1);
    lemma_cross_sum(s[m - 2], s[m - 1], s[0]);
    assert(shoelace(s, m - 1) == shoelace(s, m - 2) + edge_term(s, m - 2));
    assert(shoelace(s, m) == shoelace(s, m - 1) + edge_term(s, m - 1));
    assert(shoelace(u, m - 1) == shoelace(u, m - 2) + edge_term(u, m - 2));
}

/// Cutting vertex `j` off a contour of three or more points takes away exactly the
/// signed area of the triangle it forms with its two neighbors.
pub proof fn lemma_area_cut(s: Seq<Point>, j: int)
    requires
        s.len() >= 3,
        0 <= j < s.len(),
    ensures
        area2(s) == orient(s[ring_prev(j, s.len() as int)], s[j], s[ring_next(j, s.len() as int)])
            + area2(s.remove(j)),
{
    let m = s.len() as int;
    let a = s.subrange(0, j + 1);
    let b = s.subrange(j + 1, m);
    assert(a + b =~= s);
    lemma_area_rotate(a, b);
    let r = b + a;
    lemma_area_drop_last(r);
    assert(r[m - 1] == s[j]);
    assert(r[m - 2] == s[ring_prev(j, m)]);
    assert(r[0] == s[ring_next(j, m)]);
    let c = s.subrange(0, j);
    assert(r.drop_last() =~= b + c);
    lemma_area_rotate(b, c);
    assert(c + b =~= s.remove(j));
}

proof fn lemma_area_two(s: Seq<Point>)
    requires
        s.len() == 2,
    ensures
        area2(s) == 0,
{
    lemma_neighbors(0, 2);
    lemma_neighbors(1, 2);
    assert(shoelace(s, 0) == 0);
    assert(shoelace(s, 1) == edge_term(s, 0));
    assert(edge_term(s, 0) == -edge_term(s, 1));
}

/// The points that the vertex indices `rem` name, in order.
pub open spec fn ring(pts: Seq<Point>, rem: Seq<int>) -> Seq<Point> {
    Seq::new(rem.len(), |k: int| pts[rem[k]])
}

/// `rem` lists distinct vertex indices below `n`.
pub open spec fn ring_ok(rem: Seq<int>, n: int) -> bool {
    &&& rem.no_duplicates()
    &&& forall|k: int| 0 <= k < rem.len() ==> 0 <= #[trigger] rem[k] < n
}

/// `next` and `prev` link the vertices of `rem` into a ring, in the order of `rem`.
pub open spec fn linked(next: Seq<usize>, prev: Seq<usize>, rem: Seq<int>) -> bool {
    forall|k: int|
        0 <= k < rem.len() ==> next[#[trigger] rem[k]] as int == rem[ring_next(k, rem.len() as int)]
            && prev[rem[k]] as int == rem[ring_prev(k, rem.len() as int)]
}

#[verifier::spinoff_prover]
proof fn lemma_unlink_at(next: Seq<usize>, prev: Seq<usize>, rem: Seq<int>, j: int, n: int, k2: int)
    requires
        linked(next, prev, rem),
        ring_ok(rem, n),
        next.len() == n,
        prev.len() == n,
        rem.len() >= 3,
        0 <= j < rem.len(),
        0 <= k2 < rem.len() - 1,
    ensures
        ({
            let len = rem.len() as int;
            let a = rem[ring_prev(j, len)];
            let c = rem[ring_next(j, len)];
            let r2 = rem.remove(j);
            &&& next.update(a, c as usize)[r2[k2]] as int == r2[ring_next(k2, len - 1)]
            &&& prev.update(c, a as usize)[r2[k2]] as int == r2[ring_prev(k2, len - 1)]
        }),
{
    let len = rem.len() as int;
    let a = rem[ring_prev(j, len)];
    let c = rem[ring_next(j, len)];
    let r2 = rem.remove(j);
    let k = if k2 < j { k2 } else { k2 + 1 };
    assert(r2[k2] == rem[k]);
    assert(next[rem[k]] as int == rem[ring_next(k, len)]);
    assert(prev[rem[k]] as int == rem[ring_prev(k, len)]);
    let kn = ring_next(k2, len - 1);
    let kp = ring_prev(k2, len - 1);
    let kn1 = if kn < j { kn } else { kn + 1 };
    let kp1 = if kp < j { kp } else { kp + 1 };
    assert(r2[kn] == rem[kn1]);
    assert(r2[kp] == rem[kp1]);
    if k == ring_prev(j, len) {
        assert(rem[k] == a);
    } else {
        assert(rem[k] != a);
    }
    if k == ring_next(j, len) {
        assert(rem[k] == c);
    } else {
        assert(rem[k] != c);
    }
}

#[verifier::spinoff_prover]
#[verifier::rlimit(40)]
proof fn lemma_unlink(next: Seq<usize>, prev: Seq<usize>, rem: Seq<int>, j: int, n: int)
    requires
        linked(next, prev, rem),
        ring_ok(rem, n),
        next.len() == n,
        prev.len() == n,
        rem.len() >= 3,
        0 <= j < rem.len(),
    ensures
        ({
            let a = rem[ring_prev(j, rem.len() as int)];
            let c = rem[ring_next(j, rem.len() as int)];
            &&& linked(next.update(a, c as usize), prev.update(c, a as usize), rem.remove(j))
            &&& ring_ok(rem.remove(j), n)
        }),
{
    let len = rem.len() as int;
    let a = rem[ring_prev(j, len)];
    let c = rem[ring_next(j, len)];
    let r2 = rem.remove(j);
    let next2 = next.update(a, c as usize);
    let prev2 = prev.update(c, a as usize);
    assert forall|k2: int| 0 <= k2 < r2.len() implies next2[#[trigger] r2[k2]] as int == r2[ring_next(k2, r2.len() as int)]
        && prev2[r2[k2]] as int == r2[ring_prev(k2, r2.len() as int)] by {
        lemma_unlink_at(next, prev, rem, j, n, k2);
    }
    assert forall|x: int, y: int| 0 <= x < y < r2.len() implies r2[x] != r2[y] by {
        let kx = if x < j { x } else { x + 1 };
        let ky = if y < j { y } else { y + 1 };
        assert(r2[x] == rem[kx]);
        assert(r2[y] == rem[ky]);
    }
    assert forall|k2: int| 0 <= k2 < r2.len() implies 0 <= #[trigger] r2[k2] < n by {
        let k = if k2 < j { k2 } else { k2 + 1 };
        assert(r2[k2] == rem[k]);
    }
}

/// Twice the signed area of triangle `t` of the index list `idx`.
pub open spec fn triangle_area(pts: Seq<Point>, idx: Seq<usize>, t: int) -> int {
    orient(pts[idx[3 * t] as int], pts[idx[3 * t + 1] as int], pts[idx[3 * t + 2] as int])
}

/// The summed signed areas of the first `k` triangles of the index list `idx`.
pub open spec fn triangles_area(pts: Seq<Point>, idx: Seq<usize>, k: int) -> int
    decreases k,
{
    if k <= 0 {
        0
    } else {
        triangles_area(pts, idx, k - 1) + triangle_area(pts, idx, k - 1)
    }
}

proof fn lemma_triangles_prefix(pts: Seq<Point>, idx: Seq<usize>, more: Seq<usize>, k: int)
    requires
        0 <= k,
        3 * k <= idx.len(),
    ensures
        triangles_area(pts, idx + more, k) == triangles_area(pts, idx, k),
    decreases k,
{
    if k > 0 {
        lemma_triangles_prefix(pts, idx, more, k - 1);
        let j = 3 * (k - 1);
        assert((idx + more)[j] == idx[j]);
        assert((idx + more)[j + 1] == idx[j + 1]);
        assert((idx + more)[j + 2] == idx[j + 2]);
    }
}

/// The triangle `a, b, c` is free of blocking reflex vertices: no vertex flagged reflex,
/// other than at the triangle's own corner points, lies inside it or on its boundary.
pub open spec fn ear_free(pts: Seq<Point>, reflex: Seq<bool>, a: int, b: int, c: int) -> bool {
    forall|j: int| 0 <= j < reflex.len() ==> !#[trigger] blocks(pts, reflex, j, a, b, c)
}

/// Vertex `j` is reflex, is none of the corner points of triangle `a, b, c`, and lies
/// inside that triangle or on its boundary.
pub open spec fn blocks(pts: Seq<Point>, reflex: Seq<bool>, j: int, a: int, b: int, c: int) -> bool {
    &&& reflex[j]
    &&& pts[j] != pts[a]
    &&& pts[j] != pts[b]
    &&& pts[j] != pts[c]
    &&& orient(pts[a], pts[b], pts[j]) >= 0
    &&& orient(pts[b], pts[c], pts[j]) >= 0
    &&& orient(pts[c], pts[a], pts[j]) >= 0
}

/// Vertex `i` turns strictly left between its current neighbors.
pub open spec fn convex_at(pts: Seq<Point>, prev: Seq<usize>, next: Seq<usize>, i: int) -> bool {
    orient(pts[prev[i] as int], pts[i], pts[next[i] as int]) > 0
}

fn vertex_is_convex(pts: &Vec<Point>, prev: &Vec<usize>, next: &Vec<usize>, i: usize) -> (r: bool)
    requires
        all_in_range(pts@),
        i < pts@.len(),
        i < prev@.len(),
        i < next@.len(),
        prev@[i as int] < pts@.len(),
        next@[i as int] < pts@.len(),
    ensures
        r == convex_at(pts@, prev@, next@, i as int),
{
    orientation(pts[prev[i]], pts[i], pts[next[i]]) > 0
}

fn vertex_is_ear(pts: &Vec<Point>, reflex: &Vec<bool>, a: usize, b: usize, c: usize) -> (r: bool)
    requires
        all_in_range(pts@),
        reflex@.len() == pts@.len(),
        a < pts@.len(),
        b < pts@.len(),
        c < pts@.len(),
    ensures
        r == ear_free(pts@, reflex@, a as int, b as int, c as int),
{
    let n = pts.len();
    let p0 = pts[a];
    let p1 = pts[b];
    let p2 = pts[c];
    let mut j: usize = 0;
    while j < n
        invariant
            n == pts@.len(),
            reflex@.len() == n,
            all_in_range(pts@),
            a < n,
            b < n,
            c < n,
            p0 == pts@[a as int],
            p1 == pts@[b as int],
            p2 == pts@[c as int],
            j <= n,
            forall|k: int| 0 <= k < j ==> !#[trigger] blocks(pts@, reflex@, k, a as int, b as int, c as int),
        decreases n - j,
    {
        if reflex[j] {
            let p = pts[j];
            if p != p0 && p != p1 && p != p2 && orientation(p0, p1, p) >= 0 && orientation(p1, p2, p) >= 0
                && orientation(p2, p0, p) >= 0 {
                assert(blocks(pts@, reflex@, j as int, a as int, b as int, c as int));
                return false;
            }
        }
        j = j + 1;
    }
    true
}

/// The reflex and ear flags after vertex `i` is reclassified (see [`reclassify`]).
pub open spec fn reclassified(
    pts: Seq<Point>,
    prev: Seq<usize>,
    next: Seq<usize>,
    reflex: Seq<bool>,
    ear: Seq<bool>,
    i: int,
) -> (Seq<bool>, Seq<bool>) {
    let a = prev[i] as int;
    let c = next[i] as int;
    if reflex[i] {
        if convex_at(pts, prev, next, i) {
            let reflex2 = reflex.update(i, false);
            (reflex2, if ear_free(pts, reflex2, a, i, c) { ear.update(i, true) } else { ear })
        } else {
            (reflex, ear)
        }
    } else {
        (reflex, ear.update(i, ear_free(pts, reflex, a, i, c)))
    }
}

/// The lowest flagged ear at or after `k`, or the length when there is none.
pub open spec fn first_ear_from(ear: Seq<bool>, k: int) -> int
    decreases ear.len() - k,
{
    if k < 0 || k >= ear.len() {
        ear.len() as int
    } else if ear[k] {
        k
    } else {
        first_ear_from(ear, k + 1)
    }
}

proof fn lemma_first_ear(ear: Seq<bool>, e: int)
    requires
        0 <= e <= ear.len(),
        forall|v: int| 0 <= v < e ==> !#[trigger] ear[v],
    ensures
        first_ear_from(ear, 0) == first_ear_from(ear, e),
    decreases e,
{
    if e > 0 {
        lemma_first_ear(ear, e - 1);
    }
}

/// The ear clipper run from a given state with `left` triangles still to emit: the
/// lowest flagged ear is clipped, emitted as (previous, ear, next), unlinked, and its two
/// neighbors reclassified. `None` when no ear is flagged while triangles remain.
pub open spec fn clip_run(
    pts: Seq<Point>,
    next: Seq<usize>,
    prev: Seq<usize>,
    reflex: Seq<bool>,
    ear: Seq<bool>,
    left: nat,
) -> Option<Seq<usize>>
    decreases left,
{
    if left == 0 {
        Some(Seq::empty())
    } else {
        let e = first_ear_from(ear, 0);
        if e >= ear.len() || e >= next.len() || e >= prev.len() {
            None
        } else {
            let a = prev[e];
            let c = next[e];
            let tri = seq![a, e as usize, c];
            if left == 1 {
                Some(tri)
            } else {
                let next1 = next.update(a as int, c);
                let prev1 = prev.update(c as int, a);
                let (reflex2, ear2) = reclassified(pts, prev1, next1, reflex, ear.update(e, false), a as int);
                let (reflex3, ear3) = reclassified(pts, prev1, next1, reflex2, ear2, c as int);
                match clip_run(pts, next1, prev1, reflex3, ear3, (left - 1) as nat) {
                    Some(rest) => Some(tri + rest),
                    None => None,
                }
            }
        }
    }
}

/// The middle indices of the first `t` triangles of `idx`, the clipped ears, are
/// pairwise distinct.
pub open spec fn distinct_ears(idx: Seq<usize>, t: int) -> bool {
    forall|t1: int, t2: int| 0 <= t1 < t2 < t ==> #[trigger] ear_at(idx, t1) != #[trigger] ear_at(idx, t2)
}

/// The ear clipped for triangle `t` of `idx`: its middle index.
pub open spec fn ear_at(idx: Seq<usize>, t: int) -> usize {
    idx[3 * t + 1]
}

/// The links of a closed contour of `n` points to the next point.
pub open spec fn initial_next(n: int) -> Seq<usize> {
    Seq::new(n as nat, |i: int| succ(i, n) as usize)
}

/// The links of a closed contour of `n` points to the previous point.
pub open spec fn initial_prev(n: int) -> Seq<usize> {
    Seq::new(n as nat, |i: int| pred(i, n) as usize)
}

/// The vertices that do not turn strictly left between their neighbors.
pub open spec fn reflex_flags(pts: Seq<Point>, prev: Seq<usize>, next: Seq<usize>) -> Seq<bool> {
    Seq::new(pts.len(), |i: int| !convex_at(pts, prev, next, i))
}

/// The convex vertices whose triangle no reflex vertex blocks.
pub open spec fn ear_flags(pts: Seq<Point>, prev: Seq<usize>, next: Seq<usize>, reflex: Seq<bool>) -> Seq<bool> {
    Seq::new(pts.len(), |i: int| !reflex[i] && ear_free(pts, reflex, prev[i] as int, i, next[i] as int))
}

/// The triangle indices that ear clipping gives for the closed contour `pts` of three or
/// more points, or `None` when it runs out of ears.
pub open spec fn ear_clipping(pts: Seq<Point>) -> Option<Seq<usize>> {
    let n = pts.len() as int;
    let next = initial_next(n);
    let prev = initial_prev(n);
    let reflex = reflex_flags(pts, prev, next);
    clip_run(pts, next, prev, reflex, ear_flags(pts, prev, next, reflex), (n - 2) as nat)
}

/// Brings the classification of vertex `i` up to date after one of its neighbors was
/// clipped: a reflex vertex that now turns left becomes convex and may become an ear;
/// a convex vertex has its ear status recomputed.
fn reclassify(
    pts: &Vec<Point>,
    prev: &Vec<usize>,
    next: &Vec<usize>,
    reflex: &mut Vec<bool>,
    ear: &mut Vec<bool>,
    i: usize,
)
    requires
        all_in_range(pts@),
        i < pts@.len(),
        prev@.len() == pts@.len(),
        next@.len() == pts@.len(),
        old(reflex)@.len() == pts@.len(),
        old(ear)@.len() == pts@.len(),
        prev@[i as int] < pts@.len(),
        next@[i as int] < pts@.len(),
    ensures
        (final(reflex)@, final(ear)@) == reclassified(pts@, prev@, next@, old(reflex)@, old(ear)@, i as int),
{
    if reflex[i] {
        if vertex_is_convex(pts, prev, next, i) {
            reflex.set(i, false);
            if vertex_is_ear(pts, reflex, prev[i], i, next[i]) {
                ear.set(i, true);
            }
        }
    } else {
        let e = vertex_is_ear(pts, reflex, prev[i], i, next[i]);
        ear.set(i, e);
    }
}

proof fn lemma_clip_area(pts: Seq<Point>, rem: Seq<int>, j: int, before: Seq<usize>, t: int, a: usize, e: usize, c: usize)
    requires
        ring_ok(rem, pts.len() as int),
        rem.len() >= 3,
        0 <= j < rem.len(),
        a as int == rem[ring_prev(j, rem.len() as int)],
        e as int == rem[j],
        c as int == rem[ring_next(j, rem.len() as int)],
        t >= 0,
        before.len() == 3 * t,
    ensures
        area2(ring(pts, rem)) + triangles_area(pts, before, t)
            == area2(ring(pts, rem.remove(j))) + triangles_area(pts, before.push(a).push(e).push(c), t + 1),
{
    let s = ring(pts, rem);
    lemma_area_cut(s, j);
    assert(ring(pts, rem.remove(j)) =~= s.remove(j));
    lemma_triangles_prefix(pts, before, seq![a, e, c], t);
    let after = before.push(a).push(e).push(c);
    assert(before + seq![a, e, c] =~= after);
    assert(after[3 * t] == a);
    assert(after[3 * t + 1] == e);
    assert(after[3 * t + 2] == c);
}

/// Links each vertex of an `n`-point contour to its neighbors.
fn initial_links(n: usize) -> (r: (Vec<usize>, Vec<usize>))
    requires
        n >= 3,
    ensures
        r.0@.len() == n,
        r.1@.len() == n,
        forall|k: int| 0 <= k < n ==> #[trigger] r.0@[k] as int == succ(k, n as int),
        forall|k: int| 0 <= k < n ==> #[trigger] r.1@[k] as int == pred(k, n as int),
        r.0@ == initial_next(n as int),
        r.1@ == initial_prev(n as int),
{
    let mut next: Vec<usize> = Vec::with_capacity(n);
    let mut prev: Vec<usize> = Vec::with_capacity(n);
    let mut i: usize = 0;
    while i < n
        invariant
            n >= 3,
            i <= n,
            next@.len() == i,
            prev@.len() == i,
            forall|k: int| 0 <= k < i ==> #[trigger] next@[k] as int == succ(k, n as int),
            forall|k: int| 0 <= k < i ==> #[trigger] prev@[k] as int == pred(k, n as int),
        decreases n - i,
    {
        proof {
            lemma_neighbors(i as int, n as int);
        }
        next.push(if i + 1 == n { 0 } else { i + 1 });
        prev.push(if i == 0 { n - 1 } else { i - 1 });
        i = i + 1;
    }
    assert(next@ =~= initial_next(n as int)) by {
        assert forall|k: int| 0 <= k < n implies next@[k] == initial_next(n as int)[k] by {
            lemma_neighbors(k, n as int);
        }
    }
    assert(prev@ =~= initial_prev(n as int)) by {
        assert forall|k: int| 0 <= k < n implies prev@[k] == initial_prev(n as int)[k] by {
            lemma_neighbors(k, n as int);
        }
    }
    (next, prev)
}

/// Flags the reflex vertices, then the ears: convex vertices free of reflex vertices.
fn initial_classes(pts: &Vec<Point>, prev: &Vec<usize>, next: &Vec<usize>) -> (r: (Vec<bool>, Vec<bool>))
    requires
        all_in_range(pts@),
        pts@.len() >= 3,
        next@.len() == pts@.len(),
        prev@.len() == pts@.len(),
        forall|k: int| 0 <= k < pts@.len() ==> #[trigger] next@[k] as int == succ(k, pts@.len() as int),
        forall|k: int| 0 <= k < pts@.len() ==> #[trigger] prev@[k] as int == pred(k, pts@.len() as int),
    ensures
        r.0@.len() == pts@.len(),
        r.1@.len() == pts@.len(),
        convex(pts@) ==> forall|k: int| 0 <= k < pts@.len() ==> !#[trigger] r.0@[k],
        convex(pts@) ==> forall|k: int| 0 <= k < pts@.len() ==> #[trigger] r.1@[k],
        r.0@ == reflex_flags(pts@, prev@, next@),
        r.1@ == ear_flags(pts@, prev@, next@, r.0@),
{
    let n = pts.len();
    let mut reflex: Vec<bool> = Vec::with_capacity(n);
    let mut i: usize = 0;
    while i < n
        invariant
            n == pts@.len(),
            all_in_range(pts@),
            i <= n,
            next@.len() == n,
            prev@.len() == n,
            reflex@.len() == i,
            forall|k: int| 0 <= k < n ==> #[trigger] next@[k] as int == succ(k, n as int),
            forall|k: int| 0 <= k < n ==> #[trigger] prev@[k] as int == pred(k, n as int),
            forall|k: int| 0 <= k < i ==> #[trigger] reflex@[k] == !convex_at(pts@, prev@, next@, k),
        decreases n - i,
    {
        proof {
            lemma_neighbors(i as int, n as int);
        }
        let c = vertex_is_convex(pts, prev, next, i);
        reflex.push(!c);
        i = i + 1;
    }
    let ghost all_left = convex(pts@);
    assert(reflex@ =~= reflex_flags(pts@, prev@, next@));
    assert(all_left ==> forall|k: int| 0 <= k < n ==> !#[trigger] reflex@[k]) by {
        if all_left {
            assert forall|k: int| 0 <= k < n implies !#[trigger] reflex@[k] by {
                assert(left_turn(pts@, k));
            }
        }
    }
    let mut ear: Vec<bool> = Vec::with_capacity(n);
    let mut i: usize = 0;
    while i < n
        invariant
            n == pts@.len(),
            all_in_range(pts@),
            i <= n,
            next@.len() == n,
            prev@.len() == n,
            reflex@.len() == n,
            ear@.len() == i,
            forall|k: int| 0 <= k < n ==> #[trigger] next@[k] as int == succ(k, n as int),
            forall|k: int| 0 <= k < n ==> #[trigger] prev@[k] as int == pred(k, n as int),
            all_left == convex(pts@),
            all_left ==> forall|k: int| 0 <= k < n ==> !#[trigger] reflex@[k],
            all_left ==> forall|k: int| 0 <= k < i ==> #[trigger] ear@[k],
            reflex@ == reflex_flags(pts@, prev@, next@),
            forall|k: int|
                0 <= k < i ==> #[trigger] ear@[k] == (!reflex@[k] && ear_free(
                    pts@,
                    reflex@,
                    prev@[k] as int,
                    k,
                    next@[k] as int,
                )),
        decreases n - i,
    {
        proof {
            lemma_neighbors(i as int, n as int);
        }
        let e = !reflex[i] && vertex_is_ear(pts, &reflex, prev[i], i, next[i]);
        ear.push(e);
        i = i + 1;
    }
    assert(ear@ =~= ear_flags(pts@, prev@, next@, reflex@));
    (reflex, ear)
}

/// The bookkeeping of the ear clipper agrees with the ring `rem` of remaining vertices:
/// the links follow the ring, every flagged ear is on it, and when the polygon turned
/// left everywhere (`all_left`) no vertex is reflex and every remaining vertex is an ear.
#[verifier::opaque]
pub open spec fn clip_state(
    pts: Seq<Point>,
    next: Seq<usize>,
    prev: Seq<usize>,
    reflex: Seq<bool>,
    ear: Seq<bool>,
    rem: Seq<int>,
    all_left: bool,
) -> bool {
    let n = pts.len() as int;
    &&& all_in_range(pts)
    &&& next.len() == n
    &&& prev.len() == n
    &&& reflex.len() == n
    &&& ear.len() == n
    &&& ring_ok(rem, n)
    &&& linked(next, prev, rem)
    &&& forall|v: int| 0 <= v < n && #[trigger] ear[v] ==> rem.contains(v)
    &&& all_left ==> forall|k: int| 0 <= k < n ==> !#[trigger] reflex[k]
    &&& all_left ==> forall|k: int| 0 <= k < rem.len() ==> #[trigger] ear[rem[k]]
}

/// Clips the ear at position `j` of the ring: unlinks it and reclassifies its neighbors.
#[verifier::spinoff_prover]
#[verifier::rlimit(60)]
fn clip(
    pts: &Vec<Point>,
    next: &mut Vec<usize>,
    prev: &mut Vec<usize>,
    reflex: &mut Vec<bool>,
    ear: &mut Vec<bool>,
    e: usize,
    Ghost(rem): Ghost<Seq<int>>,
    Ghost(j): Ghost<int>,
    Ghost(all_left): Ghost<bool>,
)
    requires
        clip_state(pts@, old(next)@, old(prev)@, old(reflex)@, old(ear)@, rem, all_left),
        rem.len() >= 3,
        0 <= j < rem.len(),
        rem[j] == e as int,
    ensures
        clip_state(pts@, final(next)@, final(prev)@, final(reflex)@, final(ear)@, rem.remove(j), all_left),
        ({
            let a = old(prev)@[e as int];
            let c = old(next)@[e as int];
            let next1 = old(next)@.update(a as int, c);
            let prev1 = old(prev)@.update(c as int, a);
            let (reflex2, ear2) = reclassified(pts@, prev1, next1, old(reflex)@, old(ear)@.update(e as int, false), a as int);
            &&& final(next)@ == next1
            &&& final(prev)@ == prev1
            &&& (final(reflex)@, final(ear)@) == reclassified(pts@, prev1, next1, reflex2, ear2, c as int)
        }),
{
    reveal(clip_state);
    let ghost n = pts@.len() as int;
    let ghost len = rem.len() as int;
    let a = prev[e];
    let c = next[e];
    proof {
        lemma_unlink(next@, prev@, rem, j, n);
    }
    ear.set(e, false);
    next.set(a, c);
    prev.set(c, a);
    let ghost r2 = rem.remove(j);
    let ghost ka = if ring_prev(j, len) < j { ring_prev(j, len) } else { ring_prev(j, len) - 1 };
    let ghost kc = if ring_next(j, len) < j { ring_next(j, len) } else { ring_next(j, len) - 1 };
    assert(r2[ka] == a as int);
    assert(r2[kc] == c as int);
    assert(forall|v: int| 0 <= v < n && #[trigger] ear@[v] ==> r2.contains(v)) by {
        assert forall|v: int| 0 <= v < n && #[trigger] ear@[v] implies r2.contains(v) by {
            let k = choose|k: int| 0 <= k < rem.len() && rem[k] == v;
            assert(k != j);
            let k2 = if k < j { k } else { k - 1 };
            assert(r2[k2] == v);
        }
    }
    assert(all_left ==> forall|k: int| 0 <= k < r2.len() ==> #[trigger] ear@[r2[k]]) by {
        if all_left {
            assert forall|k: int| 0 <= k < r2.len() implies #[trigger] ear@[r2[k]] by {
                let k1 = if k < j { k } else { k + 1 };
                assert(r2[k] == rem[k1]);
                assert(rem[k1] != e as int);
            }
        }
    }
    reclassify(pts, prev, next, reflex, ear, a);
    assert(all_left ==> ear@[a as int]) by {
        if all_left {
            assert(ear_free(pts@, reflex@, prev@[a as int] as int, a as int, next@[a as int] as int));
        }
    }
    reclassify(pts, prev, next, reflex, ear, c);
    assert(all_left ==> ear@[c as int]) by {
        if all_left {
            assert(ear_free(pts@, reflex@, prev@[c as int] as int, c as int, next@[c as int] as int));
        }
    }
}

/// What the clipping loop reads off its bookkeeping: the lengths, where a flagged ear
/// sits on the ring and who its neighbors are, and that a polygon turning left
/// everywhere has an ear at each remaining vertex.
proof fn lemma_clip_state_facts(
    pts: Seq<Point>,
    next: Seq<usize>,
    prev: Seq<usize>,
    reflex: Seq<bool>,
    ear: Seq<bool>,
    rem: Seq<int>,
    all_left: bool,
)
    requires
        clip_state(pts, next, prev, reflex, ear, rem, all_left),
    ensures
        all_in_range(pts),
        next.len() == pts.len(),
        prev.len() == pts.len(),
        reflex.len() == pts.len(),
        ear.len() == pts.len(),
        ring_ok(rem, pts.len() as int),
        forall|v: int| 0 <= v < pts.len() && #[trigger] ear[v] ==> exists|j: int|
            0 <= j < rem.len() && rem[j] == v && next[v] as int == rem[ring_next(j, rem.len() as int)]
                && prev[v] as int == rem[ring_prev(j, rem.len() as int)],
        all_left && rem.len() > 0 ==> ear[rem[0]] && 0 <= rem[0] < pts.len(),
{
    reveal(clip_state);
    assert forall|v: int| 0 <= v < pts.len() && #[trigger] ear[v] implies exists|j: int|
        0 <= j < rem.len() && rem[j] == v && next[v] as int == rem[ring_next(j, rem.len() as int)]
            && prev[v] as int == rem[ring_prev(j, rem.len() as int)] by {
        assert(rem.contains(v));
        let j = choose|j: int| 0 <= j < rem.len() && rem[j] == v;
        assert(next[rem[j]] as int == rem[ring_next(j, rem.len() as int)]);
    }
}

/// Clips ears off the ring `rem` until `n - 2` triangles are out.
#[verifier::spinoff_prover]
fn clip_all(
    pts: &Vec<Point>,
    next0: Vec<usize>,
    prev0: Vec<usize>,
    reflex0: Vec<bool>,
    ear0: Vec<bool>,
    Ghost(rem0): Ghost<Seq<int>>,
    Ghost(all_left): Ghost<bool>,
) -> (r: Result<Vec<usize>, ShapeError>)
    requires
        pts@.len() >= 3,
        clip_state(pts@, next0@, prev0@, reflex0@, ear0@, rem0, all_left),
        rem0.len() == pts@.len(),
        area2(ring(pts@, rem0)) == area2(pts@),
    ensures
        match clip_run(pts@, next0@, prev0@, reflex0@, ear0@, (pts@.len() - 2) as nat) {
            Some(full) => r matches Ok(idx) && idx@ == full,
            None => r is Err,
        },
        r matches Ok(idx) ==> distinct_ears(idx@, pts@.len() - 2),
        r matches Ok(idx) ==> {
            &&& idx@.len() == 3 * (pts@.len() - 2)
            &&& forall|k: int| 0 <= k < idx@.len() ==> #[trigger] idx@[k] < pts@.len()
            &&& triangles_area(pts@, idx@, pts@.len() - 2) == area2(pts@)
        },
        r matches Err(e) ==> e == ShapeError::NoEar,
        all_left ==> r is Ok,
{
    let mut next = next0;
    let mut prev = prev0;
    let mut reflex = reflex0;
    let mut ear = ear0;
    let n = pts.len();
    let ghost mut rem = rem0;
    let ghost full = clip_run(pts@, next@, prev@, reflex@, ear@, (n - 2) as nat);
    assert(triangles_area(pts@, Seq::<usize>::empty(), 0) == 0);
    proof {
        if full is Some {
            assert(Seq::<usize>::empty() + full->Some_0 =~= full->Some_0);
        }
    }
    let mut idx: Vec<usize> = Vec::new();
    let mut t: usize = 0;
    loop
        invariant
            n == pts@.len(),
            n >= 3,
            clip_state(pts@, next@, prev@, reflex@, ear@, rem, all_left),
            t < n - 2,
            rem.len() == n - t,
            idx@.len() == 3 * t,
            forall|k: int| 0 <= k < idx@.len() ==> #[trigger] idx@[k] < n,
            area2(ring(pts@, rem)) + triangles_area(pts@, idx@, t as int) == area2(pts@),
            match clip_run(pts@, next@, prev@, reflex@, ear@, (n - 2 - t) as nat) {
                Some(rest) => full == Some(idx@ + rest),
                None => full is None,
            },
            full == clip_run(pts@, next0@, prev0@, reflex0@, ear0@, (n - 2) as nat),
            distinct_ears(idx@, t as int),
            forall|t1: int| 0 <= t1 < t ==> !rem.contains(#[trigger] ear_at(idx@, t1) as int),
        decreases n - 2 - t,
    {
        proof {
            lemma_clip_state_facts(pts@, next@, prev@, reflex@, ear@, rem, all_left);
        }
        let mut e: usize = 0;
        while e < n && !ear[e]
            invariant
                ear@.len() == n,
                e <= n,
                forall|v: int| 0 <= v < e ==> !#[trigger] ear@[v],
            decreases n - e,
        {
            e = e + 1;
        }
        proof {
            lemma_first_ear(ear@, e as int);
        }
        if e == n {
            proof {
                if all_left {
                    assert(ear@[rem[0]]);
                }
            }
            return Err(ShapeError::NoEar);
        }
        let ghost left = (n - 2 - t) as nat;
        let ghost before_idx = idx@;
        let ghost cur_next = next@;
        let ghost cur_prev = prev@;
        let ghost cur_reflex = reflex@;
        let ghost cur_ear = ear@;
        let ghost len = rem.len() as int;
        let ghost j = choose|j: int|
            0 <= j < rem.len() && rem[j] == e as int && next@[e as int] as int == rem[ring_next(j, len)]
                && prev@[e as int] as int == rem[ring_prev(j, len)];
        let a = prev[e];
        let c = next[e];
        proof {
            lemma_clip_area(pts@, rem, j, idx@, t as int, a, e, c);
        }
        idx.push(a);
        idx.push(e);
        idx.push(c);
        let ghost tri = seq![a, e, c];
        assert(idx@ =~= before_idx + tri);
        proof {
            assert(ear_at(idx@, t as int) == e);
            assert forall|t1: int| 0 <= t1 < t implies #[trigger] ear_at(idx@, t1) == ear_at(before_idx, t1) by {}
            assert forall|t1: int, t2: int| 0 <= t1 < t2 < t + 1 implies #[trigger] ear_at(idx@, t1) != #[trigger] ear_at(idx@, t2) by {
                assert(ear_at(idx@, t1) == ear_at(before_idx, t1));
                if t2 == t {
                    assert(!rem.contains(ear_at(before_idx, t1) as int));
                    assert(rem[j] == e as int);
                } else {
                    assert(ear_at(idx@, t2) == ear_at(before_idx, t2));
                }
            }
        }
        t = t + 1;
        if t == n - 2 {
            proof {
                lemma_area_two(ring(pts@, rem.remove(j)));
                assert(clip_run(pts@, cur_next, cur_prev, cur_reflex, cur_ear, left) == Some(tri));
            }
            return Ok(idx);
        }
        clip(pts, &mut next, &mut prev, &mut reflex, &mut ear, e, Ghost(rem), Ghost(j), Ghost(all_left));
        proof {
            let r0 = rem;
            rem = rem.remove(j);
            assert forall|t1: int| 0 <= t1 < t implies !rem.contains(#[trigger] ear_at(idx@, t1) as int) by {
                if rem.contains(ear_at(idx@, t1) as int) {
                    let w = choose|w: int| 0 <= w < rem.len() && rem[w] == ear_at(idx@, t1) as int;
                    let w0 = if w < j { w } else { w + 1 };
                    assert(r0[w0] == rem[w]);
                    if t1 < t - 1 {
                        assert(ear_at(idx@, t1) == ear_at(before_idx, t1));
                        assert(r0.contains(ear_at(idx@, t1) as int));
                    } else {
                        assert(ear_at(idx@, t1) == e);
                        assert(r0[j] == e as int);
                        assert(w0 != j);
                    }
                }
            }
            let nxt = clip_run(pts@, next@, prev@, reflex@, ear@, (left - 1) as nat);
            assert(clip_run(pts@, cur_next, cur_prev, cur_reflex, cur_ear, left) == match nxt {
                Some(rest) => Some(tri + rest),
                None => None::<Seq<usize>>,
            });
            if nxt is Some {
                assert(before_idx + (tri + nxt->Some_0) =~= idx@ + nxt->Some_0);
            }
        }
    }
}

impl Polygon {
    /// Triangulates the polygon by ear clipping.
    ///
    /// Each step clips the lowest-numbered ear, emitting the triangle (previous, ear,
    /// next), and reclassifies the ear's two neighbors, until `n - 2` triangles are out;
    /// the result is exactly [`ear_clipping`].
    /// The triangles' signed areas add up to the polygon's. Fails with `NoEar` when no
    /// vertex qualifies as an ear, which cannot happen on a polygon that turns left
    /// everywhere.
    #[verifier::spinoff_prover]
    #[verifier::rlimit(40)]
    pub fn triangulate(&self) -> (r: Result<Vec<usize>, ShapeError>)
        requires
            self.wf(),
            self.points@.len() >= 3,
        ensures
            r matches Ok(idx) ==> {
                &&& idx@.len() == 3 * (self.points@.len() - 2)
                &&& forall|k: int| 0 <= k < idx@.len() ==> #[trigger] idx@[k] < self.points@.len()
                &&& triangles_area(self.points@, idx@, self.points@.len() - 2) == area2(self.points@)
            },
            r matches Err(e) ==> e == ShapeError::NoEar,
            convex(self.points@) ==> r is Ok,
            match ear_clipping(self.points@) {
                Some(full) => r matches Ok(idx) && idx@ == full,
                None => r is Err,
            },
            r matches Ok(idx) ==> distinct_ears(idx@, self.points@.len() - 2),
    {
        let pts = &self.points;
        let n = pts.len();
        let ghost all_left = convex(pts@);
        let (next, prev) = initial_links(n);
        let (reflex, ear) = initial_classes(pts, &prev, &next);
        let ghost rem: Seq<int> = Seq::new(n as nat, |k: int| k);
        assert(ring(pts@, rem) =~= pts@);
        assert(linked(next@, prev@, rem)) by {
            assert forall|k: int| 0 <= k < rem.len() implies next@[#[trigger] rem[k]] as int == rem[ring_next(k, rem.len() as int)]
                && prev@[rem[k]] as int == rem[ring_prev(k, rem.len() as int)] by {
                lemma_neighbors(k, n as int);
            }
        }
        assert(forall|v: int| 0 <= v < n && #[trigger] ear@[v] ==> rem.contains(v)) by {
            assert forall|v: int| 0 <= v < n && #[trigger] ear@[v] implies rem.contains(v) by {
                assert(rem[v] == v);
            }
        }
        assert(clip_state(pts@, next@, prev@, reflex@, ear@, rem, all_left)) by {
            reveal(clip_state);
        }
        clip_all(pts, next, prev, reflex, ear, Ghost(rem), Ghost(all_left))
    }
}

} // verus!
