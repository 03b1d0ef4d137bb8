//! Filling polygons: triangulating them into meshes of one color.
use vstd::prelude::*;
use crate::error::ShapeError;
use crate::holed_polygon::HoledPolygon;
use crate::mesh::{Mesh, Vertex};
use crate::point::Point;
use crate::polygon::{Polygon, area2, convex, verified, merged};
use crate::shape::{Config, Shape};
use crate::triangulate::{triangles_area, ear_clipping};

verus! {

/// The vertices of `vs` sit at the points of `pts`, in order, at height 0, in `color`.
pub open spec fn vertices_at(vs: Seq<Vertex>, pts: Seq<Point>, color: [u8; 4]) -> bool {
    &&& vs.len() == pts.len()
    &&& forall|k: int|
        0 <= k < vs.len() ==> (#[trigger] vs[k]).position@ == seq![pts[k].x, pts[k].y, 0i64] && vs[k].color
            == color
}

/// The indices as positions into a sequence.
pub open spec fn as_positions(idx: Seq<u32>) -> Seq<usize> {
    idx.map_values(|i: u32| i as usize)
}

/// The points of the vertices, dropping their height.
pub open spec fn points_of(vs: Seq<Vertex>) -> Seq<Point> {
    vs.map_values(|v: Vertex| Point { x: v.position@[0], y: v.position@[1] })
}

/// `m` fills the contour of its own vertices: `n - 2` triangles over its `n` vertices
/// whose signed areas add up to the contour's.
pub open spec fn fills_contour(m: Mesh) -> bool {
    let n = m.vertices@.len() as int;
    &&& n >= 3
    &&& m.wf()
    &&& m.indices@.len() == 3 * (n - 2)
    &&& triangles_area(points_of(m.vertices@), as_positions(m.indices@), n - 2) == area2(points_of(m.vertices@))
}

/// `r` is the mesh filling the counter-clockwise contour `pts` in `color`: one vertex
/// per point and the triangles of [`ear_clipping`]. Or it is the reason there is none:
/// too few points, no ear found (never on a contour that turns left everywhere), or more
/// vertices than 32-bit indices address.
pub open spec fn fills(pts: Seq<Point>, color: [u8; 4], r: Result<Mesh, ShapeError>) -> bool {
    match r {
        Ok(m) => pts.len() <= 0x1_0000_0000 && vertices_at(m.vertices@, pts, color) && fills_contour(m) && ear_clipping(pts) == Some(
            as_positions(m.indices@),
        ),
        Err(e) => (pts.len() < 3 && e == ShapeError::TooFewPoints) || (3 <= pts.len() <= 0x1_0000_0000 && e
            == ShapeError::NoEar && ear_clipping(pts) is None && !convex(pts)) || (pts.len() > 0x1_0000_0000
            && e == ShapeError::TooManyVertices),
    }
}

/// Triangulates the polygon as it stands and colors its vertices.
fn mesh_of(polygon: &Polygon, color: [u8; 4]) -> (r: Result<Mesh, ShapeError>)
    requires
        polygon.wf(),
    ensures
        fills(polygon.points@, color, r),
{
    let pts = &polygon.points;
    let n = pts.len();
    if n < 3 {
        return Err(ShapeError::TooFewPoints);
    }
    if n as u64 > 0x1_0000_0000u64 {
        return Err(ShapeError::TooManyVertices);
    }
    let idx = match polygon.triangulate() {
        Ok(idx) => idx,
        Err(e) => {
            return Err(e);
        },
    };
    let m = idx.len();
    let mut indices: Vec<u32> = Vec::with_capacity(m);
    let mut k: usize = 0;
    while k < m
        invariant
            m == idx@.len(),
            n == pts@.len(),
            n <= 0x1_0000_0000,
            k <= m,
            forall|j: int| 0 <= j < m ==> #[trigger] idx@[j] < n,
            indices@.len() == k,
            forall|j: int| 0 <= j < k ==> #[trigger] indices@[j] as usize == idx@[j],
        decreases m - k,
    {
        indices.push(idx[k] as u32);
        k = k + 1;
    }
    assert(as_positions(indices@) =~= idx@);
    let mut vertices: Vec<Vertex> = Vec::with_capacity(n);
    let mut k: usize = 0;
    while k < n
        invariant
            n == pts@.len(),
            k <= n,
            vertices@.len() == k,
            forall|j: int|
                0 <= j < k ==> (#[trigger] vertices@[j]).position@ == seq![pts@[j].x, pts@[j].y, 0i64]
                    && vertices@[j].color == color,
        decreases n - k,
    {
        let p = pts[k];
        let v = Vertex { position: [p.x, p.y, 0], color };
        assert(v.position@ =~= seq![p.x, p.y, 0i64]);
        vertices.push(v);
        k = k + 1;
    }
    assert(points_of(vertices@) =~= pts@);
    let mesh = Mesh { vertices, indices };
    assert(mesh.indices@.len() % 3 == 0) by {
        assert(mesh.indices@.len() == 3 * (n - 2));
    }
    Ok(mesh)
}

/// Fills a polygon, verifying it first.
#[derive(Clone, Copy, Debug)]
pub struct FillPolygon {
    pub color: [u8; 4],
}

impl Shape for FillPolygon {
    type Input = Polygon;
    type Output = Mesh;

    open spec fn accepts(&self, polygon: Polygon) -> bool {
        polygon.wf()
    }

    open spec fn gives(&self, cfg: Config, polygon: Polygon, r: Result<Mesh, ShapeError>) -> bool {
        fills(verified(polygon.points@, polygon.is_simple), self.color, r)
    }

    fn generate(&self, cfg: &Config, polygon: Polygon) -> (r: Result<Mesh, ShapeError>) {
        let mut polygon = polygon;
        polygon.verify();
        mesh_of(&polygon, self.color)
    }
}

/// `m` is a filled contour whose vertices all lie at height 0 in `color`.
pub open spec fn flat_fill(m: Mesh, color: [u8; 4]) -> bool {
    &&& fills_contour(m)
    &&& forall|k: int|
        0 <= k < m.vertices@.len() ==> (#[trigger] m.vertices@[k]).position@[2] == 0 && m.vertices@[k].color == color
}

/// The points of each polygon.
pub open spec fn contours(ps: Seq<Polygon>) -> Seq<Seq<Point>> {
    Seq::new(ps.len(), |k: int| ps[k].points@)
}

/// The points of each polygon once verified.
pub open spec fn verified_contours(ps: Seq<Polygon>) -> Seq<Seq<Point>> {
    Seq::new(ps.len(), |k: int| verified(ps[k].points@, ps[k].is_simple))
}

/// The single contour that filling `p` triangulates: its verified boundary with its
/// verified holes bridged in, in order; `None` when a hole cannot be bridged.
pub open spec fn holed_contour(p: HoledPolygon) -> Option<Seq<Point>> {
    merged(verified(p.polygon.points@, p.polygon.is_simple), verified_contours(p.holes@))
}

/// `r` is the mesh filling the polygon with holes `p` in `color`, or why there is none.
pub open spec fn fills_holed(p: HoledPolygon, color: [u8; 4], r: Result<Mesh, ShapeError>) -> bool {
    match holed_contour(p) {
        None => r matches Err(e) && (e == ShapeError::TooFewPoints || e == ShapeError::NoBridge),
        Some(s) => fills(s, color, r),
    }
}

/// Verifies a polygon with holes, bridges its holes into the outer contour and fills it.
fn fill_holed(polygon: HoledPolygon, color: [u8; 4]) -> (r: Result<Mesh, ShapeError>)
    requires
        polygon.wf(),
    ensures
        fills_holed(polygon, color, r),
        r matches Ok(m) ==> flat_fill(m, color),
{
    let ghost p0 = polygon;
    let mut shape = polygon;
    shape.verify();
    let HoledPolygon { polygon: mut outer, holes: mut holes } = shape;
    assert(contours(holes@) =~= verified_contours(p0.holes@));
    let n = holes.len();
    let mut k: usize = 0;
    while k < n
        invariant
            n == holes@.len() + k,
            outer.wf(),
            forall|j: int| 0 <= j < holes@.len() ==> (#[trigger] holes@[j]).wf(),
            merged(outer.points@, contours(holes@)) == holed_contour(p0),
            p0 == polygon,
        decreases n - k,
    {
        let ghost before = contours(holes@);
        let hole = holes.remove(0);
        assert(contours(holes@) =~= before.drop_first());
        assert(before[0] == hole.points@);
        if !outer.can_bridge(&hole) {
            assert(merged(outer.points@, before) is None);
            if hole.points.len() == 0 {
                return Err(ShapeError::TooFewPoints);
            }
            return Err(ShapeError::NoBridge);
        }
        let ghost o0 = outer.points@;
        outer.merge_hole(hole);
        assert(merged(o0, before) == merged(outer.points@, contours(holes@)));
        k = k + 1;
    }
    assert(contours(holes@) =~= Seq::<Seq<Point>>::empty());
    let r = mesh_of(&outer, color);
    proof {
        if r is Ok {
            let m = r->Ok_0;
            assert forall|k: int| 0 <= k < m.vertices@.len() implies (#[trigger] m.vertices@[k]).position@[2] == 0
                && m.vertices@[k].color == color by {
                assert(m.vertices@[k].position@ == seq![outer.points@[k].x, outer.points@[k].y, 0i64]);
            }
        }
    }
    r
}

/// Fills a polygon with holes.
#[derive(Clone, Copy, Debug)]
pub struct FillHoled {
    pub color: [u8; 4],
}

impl Shape for FillHoled {
    type Input = HoledPolygon;
    type Output = Mesh;

    open spec fn accepts(&self, polygon: HoledPolygon) -> bool {
        polygon.wf()
    }

    /// The mesh filling the verified boundary with its verified holes bridged in.
    open spec fn gives(&self, cfg: Config, polygon: HoledPolygon, r: Result<Mesh, ShapeError>) -> bool {
        fills_holed(polygon, self.color, r)
    }

    fn generate(&self, cfg: &Config, polygon: HoledPolygon) -> (r: Result<Mesh, ShapeError>) {
        fill_holed(polygon, self.color)
    }
}

/// The contour that filling `p` triangulates, with its triangulation, or `None` when
/// filling `p` fails.
pub open spec fn fill_part(p: HoledPolygon) -> Option<(Seq<Point>, Seq<usize>)> {
    match holed_contour(p) {
        Some(s) => if 3 <= s.len() <= 0x1_0000_0000 {
            match ear_clipping(s) {
                Some(idx) => Some((s, idx)),
                None => None,
            }
        } else {
            None
        },
        None => None,
    }
}

/// Every polygon of `ps` fills.
pub open spec fn all_fill(ps: Seq<HoledPolygon>) -> bool {
    forall|k: int| 0 <= k < ps.len() ==> #[trigger] fill_part(ps[k]) is Some
}

/// The contours of the polygons of `ps`, one after another.
pub open spec fn all_points(ps: Seq<HoledPolygon>) -> Seq<Point>
    decreases ps.len(),
{
    if ps.len() == 0 {
        Seq::empty()
    } else {
        all_points(ps.drop_last()) + fill_part(ps.last())->Some_0.0
    }
}

/// The triangulations of the polygons of `ps`, one after another, each moved up past
/// the points of the polygons before it.
pub open spec fn all_indices(ps: Seq<HoledPolygon>) -> Seq<int>
    decreases ps.len(),
{
    if ps.len() == 0 {
        Seq::empty()
    } else {
        let idx = fill_part(ps.last())->Some_0.1;
        let base = all_points(ps.drop_last()).len() as int;
        all_indices(ps.drop_last()) + Seq::new(idx.len(), |k: int| idx[k] as int + base)
    }
}

/// The indices as integers.
pub open spec fn index_values(idx: Seq<u32>) -> Seq<int> {
    idx.map_values(|i: u32| i as int)
}

proof fn lemma_all_points_prefix(ps: Seq<HoledPolygon>, k: int)
    requires
        0 <= k <= ps.len(),
    ensures
        all_points(ps.subrange(0, k)).len() <= all_points(ps).len(),
    decreases ps.len(),
{
    if k < ps.len() {
        assert(ps.drop_last().subrange(0, k) =~= ps.subrange(0, k));
        lemma_all_points_prefix(ps.drop_last(), k);
    } else {
        assert(ps.subrange(0, k) =~= ps);
    }
}

/// Fills `polygon` and appends its mesh to `mesh`, which holds the fill of `pre`.
#[verifier::rlimit(40)]
fn append_fill(mesh: &mut Mesh, polygon: HoledPolygon, color: [u8; 4], Ghost(pre): Ghost<Seq<HoledPolygon>>) -> (r:
    Result<(), ShapeError>)
    requires
        polygon.wf(),
        old(mesh).wf(),
        all_fill(pre),
        points_of(old(mesh).vertices@) == all_points(pre),
        index_values(old(mesh).indices@) == all_indices(pre),
        old(mesh).indices@.len() == 3 * (old(mesh).vertices@.len() - 2 * pre.len()),
        forall|j: int|
            0 <= j < old(mesh).vertices@.len() ==> (#[trigger] old(mesh).vertices@[j]).position@[2] == 0
                && old(mesh).vertices@[j].color == color,
    ensures
        r is Ok ==> {
            &&& final(mesh).wf()
            &&& all_fill(pre.push(polygon))
            &&& points_of(final(mesh).vertices@) == all_points(pre.push(polygon))
            &&& index_values(final(mesh).indices@) == all_indices(pre.push(polygon))
            &&& final(mesh).indices@.len() == 3 * (final(mesh).vertices@.len() - 2 * (pre.len() + 1))
            &&& forall|j: int|
                0 <= j < final(mesh).vertices@.len() ==> (#[trigger] final(mesh).vertices@[j]).position@[2] == 0
                    && final(mesh).vertices@[j].color == color
        },
        r matches Err(e) ==> (fill_part(polygon) is None || all_points(pre.push(polygon)).len() > 0x1_0000_0000)
            && (e == ShapeError::TooFewPoints || e == ShapeError::NoBridge || e == ShapeError::NoEar || e
            == ShapeError::TooManyVertices),
{
    let ghost pre1 = pre.push(polygon);
    assert(pre1.drop_last() =~= pre);
    let ghost p0 = polygon;
    let part = match fill_holed(polygon, color) {
        Ok(part) => part,
        Err(e) => {
            return Err(e);
        },
    };
    assert(fill_part(p0) == Some((points_of(part.vertices@), as_positions(part.indices@)))) by {
        let sq = holed_contour(p0)->Some_0;
        assert(points_of(part.vertices@) =~= sq);
    }
    let ghost before = *mesh;
    let ghost added = part.vertices@;
    let ghost part_idx = part.indices@;
    let ghost part_len = part.vertices@.len();
    assert(all_points(pre1).len() == all_points(pre).len() + part_len);
    assert(all_points(pre).len() == before.vertices@.len()) by {
        assert(points_of(before.vertices@).len() == before.vertices@.len());
    }
    match mesh.append(part) {
        Ok(()) => {},
        Err(e) => {
            proof {
                if before.vertices@.len() <= u32::MAX {
                    let w = choose|w: int| 0 <= w < part_idx.len() && !(#[trigger] part_idx[w] + before.vertices@.len() <= u32::MAX);
                    assert(part_idx[w] < part_len);
                }
            }
            return Err(e);
        },
    }
    proof {
        assert(all_fill(pre1)) by {
            assert forall|j: int| 0 <= j < pre1.len() implies #[trigger] fill_part(pre1[j]) is Some by {
                if j < pre.len() {
                    assert(pre1[j] == pre[j]);
                }
            }
        }
        assert(points_of(mesh.vertices@) =~= points_of(before.vertices@) + points_of(added));
        assert(index_values(mesh.indices@) =~= all_indices(pre1));
        assert forall|j: int| 0 <= j < mesh.vertices@.len() implies (#[trigger] mesh.vertices@[j]).position@[2] == 0
            && mesh.vertices@[j].color == color by {
            if j >= before.vertices@.len() {
                assert(mesh.vertices@[j] == added[j - before.vertices@.len()]);
            }
        }
    }
    Ok(())
}

/// Fills a list of polygons with holes into one mesh, each polygon's indices moved up
/// past the vertices of the polygons before it.
#[derive(Clone, Copy, Debug)]
pub struct FillPolygons {
    pub color: [u8; 4],
}

impl Shape for FillPolygons {
    type Input = Vec<HoledPolygon>;
    type Output = Mesh;

    open spec fn accepts(&self, polygons: Vec<HoledPolygon>) -> bool {
        forall|k: int| 0 <= k < polygons@.len() ==> (#[trigger] polygons@[k]).wf()
    }

    /// The polygons' meshes appended in order: their contours one after another as the
    /// vertices, each triangulation moved up past the vertices before it. Success is owed
    /// when every polygon fills and all vertices together fit 32-bit indices.
    open spec fn gives(&self, cfg: Config, polygons: Vec<HoledPolygon>, r: Result<Mesh, ShapeError>) -> bool {
        &&& r matches Ok(m) ==> all_fill(polygons@) && points_of(m.vertices@) == all_points(polygons@)
            && index_values(m.indices@) == all_indices(polygons@)
        &&& all_fill(polygons@) && all_points(polygons@).len() <= 0x1_0000_0000 ==> r is Ok
        &&& r matches Ok(m) ==> {
            &&& m.wf()
            &&& m.indices@.len() == 3 * (m.vertices@.len() - 2 * polygons@.len())
            &&& forall|k: int|
                0 <= k < m.vertices@.len() ==> (#[trigger] m.vertices@[k]).position@[2] == 0 && m.vertices@[k].color
                    == self.color
        }
        &&& polygons@.len() == 0 ==> (r matches Ok(m) && m.vertices@.len() == 0 && m.indices@.len() == 0)
        &&& r matches Err(e) ==> e == ShapeError::TooFewPoints || e == ShapeError::NoBridge || e
            == ShapeError::NoEar || e == ShapeError::TooManyVertices
    }

    fn generate(&self, cfg: &Config, polygons: Vec<HoledPolygon>) -> (r: Result<Mesh, ShapeError>) {
        let mut rest = polygons;
        let n = rest.len();
        let mut mesh = Mesh::empty();
        let mut k: usize = 0;
        while k < n
            invariant
                n == rest@.len() + k,
                n == polygons@.len(),
                k == 0 ==> mesh.vertices@.len() == 0 && mesh.indices@.len() == 0,
                forall|j: int| 0 <= j < rest@.len() ==> (#[trigger] rest@[j]).wf(),
                mesh.wf(),
                mesh.indices@.len() == 3 * (mesh.vertices@.len() - 2 * k),
                forall|j: int|
                    0 <= j < mesh.vertices@.len() ==> (#[trigger] mesh.vertices@[j]).position@[2] == 0
                        && mesh.vertices@[j].color == self.color,
                rest@ == polygons@.subrange(k as int, n as int),
                all_fill(polygons@.subrange(0, k as int)),
                points_of(mesh.vertices@) == all_points(polygons@.subrange(0, k as int)),
                index_values(mesh.indices@) == all_indices(polygons@.subrange(0, k as int)),
            decreases n - k,
        {
            let ghost ps = polygons@;
            let ghost pre = ps.subrange(0, k as int);
            let ghost pre1 = ps.subrange(0, k as int + 1);
            assert(pre1 =~= pre.push(ps[k as int]));
            let polygon = rest.remove(0);
            assert(polygon == ps[k as int]);
            assert(rest@ =~= ps.subrange(k as int + 1, n as int));
            match append_fill(&mut mesh, polygon, self.color, Ghost(pre)) {
                Ok(()) => {},
                Err(e) => {
                    proof {
                        if fill_part(ps[k as int]) is Some {
                            lemma_all_points_prefix(ps, k as int + 1);
                        }
                    }
                    return Err(e);
                },
            }
            k = k + 1;
        }
        assert(polygons@.subrange(0, n as int) =~= polygons@);
        Ok(mesh)
    }
}

} // verus!
