use scissor::{
    Combine, CombineMesh, CombineMeshes, Complete, Config, FillHoled, FillPolygon, FillPolygons, HoledPolygon,
    Hole, Id, Mesh, Offset, Outline, Point, Polygon, Polyline, Shape, ShapeError, Split, Vertex,
};

const RED: [u8; 4] = [255, 0, 0, 255];

fn pts(coords: &[(i64, i64)]) -> Vec<Point> {
    coords.iter().map(|&(x, y)| Point::new(x, y)).collect()
}

fn polygon(coords: &[(i64, i64)]) -> Polygon {
    Polygon::from_points(pts(coords))
}

fn coords(v: &[Point]) -> Vec<(i64, i64)> {
    v.iter().map(|q| (q.x, q.y)).collect()
}

fn mesh(n: usize, indices: Vec<u32>) -> Mesh {
    let vertices = (0..n).map(|i| Vertex { position: [i as i64, 0, 0], color: RED }).collect();
    Mesh { vertices, indices }
}

struct Square(i64);

impl Shape for Square {
    type Input = ();
    type Output = Polygon;

    fn generate(&self, _cfg: &Config, _input: ()) -> Result<Polygon, ShapeError> {
        let h = self.0;
        Ok(polygon(&[(-h, -h), (h, -h), (h, h), (-h, h)]))
    }
}

struct FilledSquare(i64);

impl Shape for FilledSquare {
    type Input = ();
    type Output = Mesh;

    fn generate(&self, cfg: &Config, _input: ()) -> Result<Mesh, ShapeError> {
        let p = Square(self.0).generate(cfg, ())?;
        FillPolygon { color: RED }.generate(cfg, p)
    }
}

#[test]
fn merged_meshes_rebase_the_second_indices() {
    let a = mesh(3, vec![0, 1, 2]);
    let b = mesh(4, vec![0, 1, 2, 0, 2, 3]);
    let m = CombineMeshes.generate(&Config::default(), (a, b)).unwrap();
    assert_eq!(m.vertices.len(), 7);
    assert_eq!(m.indices, vec![0, 1, 2, 3, 4, 5, 3, 5, 6]);
    assert_eq!(m.vertices[3].position, [0, 0, 0]);
}

#[test]
fn merging_past_32_bit_indices_fails() {
    let a = mesh(1, vec![]);
    let b = mesh(1, vec![u32::MAX, 0, 0]);
    assert_eq!(CombineMeshes.generate(&Config::default(), (a, b)).err(), Some(ShapeError::TooManyVertices));
}

#[test]
fn combine_mesh_appends_a_generated_mesh() {
    let start = mesh(3, vec![0, 1, 2]);
    let m = CombineMesh { mesh: FilledSquare(10) }.generate(&Config::default(), start).unwrap();
    assert_eq!(m.vertices.len(), 7);
    assert_eq!(m.indices, vec![0, 1, 2, 6, 3, 4, 6, 4, 5]);
}

#[test]
fn id_hands_its_input_back() {
    let id: Id<u32> = Id::new();
    assert_eq!(id.generate(&Config::default(), 7).unwrap(), 7);
}

#[test]
fn default_resolution_is_one_unit() {
    assert_eq!(Config::default().resolution, scissor::point::UNIT);
}

#[test]
fn complete_closes_a_line() {
    let line = Polyline::from_points(pts(&[(0, 0), (10, 0), (10, 10)]));
    let p = Complete.generate(&Config::default(), line).unwrap();
    assert_eq!(coords(&p.points), vec![(0, 0), (10, 0), (10, 10)]);
    assert_eq!(p.is_ccw, None);
}

#[test]
fn combine_pipes_one_shape_into_the_next() {
    let shape = Combine { input: Square(10), output: FillPolygon { color: RED } };
    let m = shape.generate(&Config::default(), ()).unwrap();
    assert_eq!(m.vertices.len(), 4);
    assert_eq!(m.indices.len(), 6);
    assert!(m.vertices.iter().all(|v| v.position[2] == 0 && v.color == RED));
}

#[test]
fn split_feeds_both_branches_the_verified_polygon() {
    let clockwise = polygon(&[(0, 0), (0, 10), (10, 10), (10, 0)]);
    let split = Split { t: Id::<Polygon>::new(), u: FillPolygon { color: RED } };
    let (p, m) = split.generate(&Config::default(), clockwise).unwrap();
    assert_eq!(coords(&p.points), vec![(10, 0), (10, 10), (0, 10), (0, 0)]);
    assert!(p.is_simple);
    assert_eq!(m.vertices.len(), 4);
    assert_eq!(m.vertices[0].position, [10, 0, 0]);
}

#[test]
fn split_then_combine_merges_both_meshes() {
    let shape = Combine {
        input: Split { t: FillPolygon { color: RED }, u: FillPolygon { color: [0, 0, 0, 255] } },
        output: CombineMeshes,
    };
    let m = shape.generate(&Config::default(), polygon(&[(0, 0), (10, 0), (10, 10), (0, 10)])).unwrap();
    assert_eq!(m.vertices.len(), 8);
    assert_eq!(m.indices, vec![3, 0, 1, 3, 1, 2, 7, 4, 5, 7, 5, 6]);
}

#[test]
fn hole_attaches_a_generated_polygon() {
    let hp = Hole { hole: Square(5) }.generate(&Config::default(), polygon(&[(0, 0), (30, 0), (30, 30)])).unwrap();
    assert_eq!(hp.holes.len(), 1);
    assert_eq!(coords(&hp.holes[0].points), vec![(-5, -5), (5, -5), (5, 5), (-5, 5)]);
    assert_eq!(hp.polygon.points.len(), 3);
}

#[test]
fn fill_gives_one_vertex_per_point() {
    let m = FillPolygon { color: RED }.generate(&Config::default(), polygon(&[(0, 0), (10, 0), (10, 10), (0, 10)])).unwrap();
    assert_eq!(m.vertices.len(), 4);
    assert_eq!(m.indices, vec![3, 0, 1, 3, 1, 2]);
    assert_eq!(m.vertices[2].position, [10, 10, 0]);
}

#[test]
fn filling_two_points_fails() {
    let r = FillPolygon { color: RED }.generate(&Config::default(), polygon(&[(0, 0), (10, 0)]));
    assert_eq!(r.err(), Some(ShapeError::TooFewPoints));
}

#[test]
fn fill_holed_bridges_the_hole() {
    let mut hp = HoledPolygon::from_polygon(polygon(&[(0, 0), (100, 0), (100, 100), (0, 100)]));
    hp.holes.push(polygon(&[(40, 40), (60, 40), (60, 60), (40, 60)]));
    let m = FillHoled { color: RED }.generate(&Config::default(), hp).unwrap();
    assert_eq!(m.vertices.len(), 10);
    assert_eq!(m.indices.len(), 3 * (10 - 2));
}

#[test]
fn fill_holed_refuses_a_hole_it_cannot_bridge() {
    let mut hp = HoledPolygon::from_polygon(polygon(&[(0, 0), (100, 0), (100, 50), (0, 50)]));
    hp.holes.push(polygon(&[(40, 40), (60, 40), (60, 60), (40, 60)]));
    let r = FillHoled { color: RED }.generate(&Config::default(), hp);
    assert_eq!(r.err(), Some(ShapeError::NoBridge));
}

#[test]
fn fill_polygons_fails_when_one_polygon_fails() {
    let a = HoledPolygon::from_polygon(polygon(&[(0, 0), (10, 0), (10, 10)]));
    let b = HoledPolygon::from_polygon(polygon(&[(20, 0), (30, 0)]));
    let r = FillPolygons { color: RED }.generate(&Config::default(), vec![a, b]);
    assert_eq!(r.err(), Some(ShapeError::TooFewPoints));
}

#[test]
fn fill_polygons_offsets_each_polygon() {
    let a = HoledPolygon::from_polygon(polygon(&[(0, 0), (10, 0), (10, 10)]));
    let b = HoledPolygon::from_polygon(polygon(&[(20, 0), (30, 0), (30, 10), (20, 10)]));
    let m = FillPolygons { color: RED }.generate(&Config::default(), vec![a, b]).unwrap();
    assert_eq!(m.vertices.len(), 7);
    assert_eq!(m.indices, vec![2, 0, 1, 6, 3, 4, 6, 4, 5]);
}

#[test]
fn outline_of_a_square_is_a_ring_around_it() {
    let square = polygon(&[(-1000, -1000), (1000, -1000), (1000, 1000), (-1000, 1000)]);
    let hp = Outline::<Polygon>::new(600).generate(&Config::default(), square).unwrap();
    assert_eq!(coords(&hp.polygon.points), vec![(1300, -1300), (1300, 1300), (-1300, 1300), (-1300, -1300)]);
    assert_eq!(coords(&hp.holes[0].points), vec![(700, -700), (700, 700), (-700, 700), (-700, -700)]);
    assert!(hp.polygon.is_simple);
    assert_eq!(hp.polygon.is_ccw, Some(true));
    assert_eq!(hp.polygon.is_convex, Some(true));
    assert_eq!(hp.holes[0].is_ccw, None);
}

#[test]
fn offset_square_stays_parallel() {
    let square = pts(&[(-1000, -1000), (1000, -1000), (1000, 1000), (-1000, 1000)]);
    let inner = scissor::offset::offset_points(&square, 300).unwrap();
    // Point k is the image of corner k + 1.
    assert_eq!(coords(&inner), vec![(700, -700), (700, 700), (-700, 700), (-700, -700)]);
    for i in 0..4 {
        let j = (i + 1) % 4;
        let (a, b) = ((i + 1) % 4, (i + 2) % 4);
        let (ex, ey) = (square[b].x - square[a].x, square[b].y - square[a].y);
        let (fx, fy) = (inner[j].x - inner[i].x, inner[j].y - inner[i].y);
        assert_eq!(ex * fy - ey * fx, 0);
        assert!(ex * fx + ey * fy > 0);
        assert_eq!((fx.abs() + fy.abs()), 1400);
    }
}

#[test]
fn offset_of_a_slanted_corner_rounds_to_the_grid() {
    // A right-angled corner whose edges run at 45 degrees, lengths 100 * sqrt(2).
    let diamond = pts(&[(0, -100), (100, 0), (0, 100), (-100, 0)]);
    let inner = scissor::offset::offset_points(&diamond, 10).unwrap();
    // Lengths round down to 141: the move is 10 * (141 * (-100, 100) + 141 * (-100, -100)) / 141^2.
    assert_eq!(coords(&inner)[0], (86, 0));
}

#[test]
fn offset_fails_on_a_zero_length_edge() {
    let p = pts(&[(0, 0), (0, 0), (10, 0), (10, 10)]);
    assert_eq!(scissor::offset::offset_points(&p, 1).err(), Some(ShapeError::FoldedCorner));
}

#[test]
fn offset_fails_outside_the_coordinate_range() {
    let p = pts(&[(0, 0), (1000, 0), (1000, 1000), (0, 1000)]);
    assert_eq!(scissor::offset::offset_points(&p, -2_000_000).err(), Some(ShapeError::OutOfRange));
}

#[test]
fn outline_of_a_holed_polygon_rings_each_contour() {
    let mut hp = HoledPolygon::from_polygon(polygon(&[(-100, -100), (100, -100), (100, 100), (-100, 100)]));
    hp.holes.push(polygon(&[(-10, -10), (10, -10), (10, 10), (-10, 10)]));
    let rings = Outline::<HoledPolygon>::new(4).generate(&Config::default(), hp).unwrap();
    assert_eq!(rings.len(), 2);
    assert_eq!(coords(&rings[0].holes[0].points), vec![(8, -8), (8, 8), (-8, 8), (-8, -8)]);
    assert_eq!(coords(&rings[1].polygon.points), vec![(102, -102), (102, 102), (-102, 102), (-102, -102)]);
}

#[test]
fn offset_line_moves_against_its_left_normal() {
    let line = Polyline::from_points(pts(&[(0, 0), (100, 0), (100, 100)]));
    let out = Offset::<Polyline>::new(10).generate(&Config::default(), line).unwrap();
    assert_eq!(coords(&out.points), vec![(0, -10), (107, -7), (110, 100)]);
}

#[test]
fn line_direction_is_the_last_segment() {
    let mut line = Polyline::from_points(pts(&[(0, 0), (3, 4)]));
    line.push(Point::new(5, 4));
    let d = line.direction();
    assert_eq!((d.x, d.y), (2, 0));
}

#[test]
fn sampled_circle_fills_with_one_vertex_per_point() {
    let unit = scissor::point::UNIT as f64;
    let radius = 1.0;
    let resolution = 0.1;
    let steps = (radius * std::f64::consts::TAU / resolution).ceil() as usize;
    let mut p = Polygon::new();
    for step in 0..steps {
        let a = step as f64 / steps as f64 * std::f64::consts::TAU;
        p.push(Point::new((a.cos() * radius * unit).round() as i64, (a.sin() * radius * unit).round() as i64));
    }
    let m = FillPolygon { color: RED }.generate(&Config::default(), p).unwrap();
    assert_eq!(m.vertices.len(), steps);
    assert_eq!(m.indices.len(), 3 * (steps - 2));
}

#[test]
fn thicken_without_caps_gives_the_two_sides() {
    let line = Polyline::from_points(pts(&[(0, 0), (100, 0), (200, 0), (300, 0)]));
    let t = scissor::Thicken { thickness: 20, cap: Vec::new() };
    let p = t.generate(&Config::default(), line).unwrap();
    assert_eq!(coords(&p.points), vec![(100, -10), (200, -10), (200, 10), (100, 10)]);
    assert!(p.is_simple);
}

#[test]
fn thicken_with_round_caps_wraps_the_ends() {
    let line = Polyline::from_points(pts(&[(0, 0), (100, 0), (200, 0), (300, 0)]));
    let cap = pts(&[(1024, 0), (0, 1024), (-1024, 0)]);
    let t = scissor::Thicken { thickness: 20, cap };
    let p = t.generate(&Config::default(), line).unwrap();
    assert_eq!(coords(&p.points), vec![(0, 10), (-10, 0), (0, -10), (300, -10), (310, 0), (300, 10)]);
}

#[test]
fn thicken_fails_on_a_repeated_end_point() {
    let line = Polyline::from_points(pts(&[(0, 0), (0, 0), (100, 0)]));
    let cap = pts(&[(1024, 0), (-1024, 0)]);
    let t = scissor::Thicken { thickness: 20, cap };
    assert_eq!(t.generate(&Config::default(), line).err(), Some(ShapeError::FoldedCorner));
}

#[test]
fn forward_extends_along_the_end_direction() {
    let line = Polyline::from_points(pts(&[(0, 0), (30, 40)]));
    let out = scissor::Forward { length: 10 }.generate(&Config::default(), line).unwrap();
    assert_eq!(coords(&out.points), vec![(0, 0), (30, 40), (36, 48)]);
    assert_eq!(out.direction, None);
}
