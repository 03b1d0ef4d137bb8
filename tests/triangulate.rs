use scissor::{Point, Polygon, ShapeError};

fn polygon(coords: &[(i64, i64)]) -> Polygon {
    Polygon::from_points(coords.iter().map(|&(x, y)| Point::new(x, y)).collect())
}

fn area2(p: &[Point]) -> i128 {
    let n = p.len();
    (0..n)
        .map(|i| {
            let a = p[i];
            let b = p[(i + 1) % n];
            a.x as i128 * b.y as i128 - b.x as i128 * a.y as i128
        })
        .sum()
}

fn triangle_area2(p: &[Point], a: usize, b: usize, c: usize) -> i128 {
    let (a, b, c) = (p[a], p[b], p[c]);
    (b.x - a.x) as i128 * (c.y - a.y) as i128 - (b.y - a.y) as i128 * (c.x - a.x) as i128
}

#[test]
fn convex_polygon_gives_n_minus_two_triangles() {
    let p = polygon(&[(0, 0), (10, 0), (15, 5), (10, 10), (0, 10), (-5, 5)]);
    let idx = p.triangulate().unwrap();
    assert_eq!(idx.len(), 3 * (6 - 2));
    assert_eq!(&idx[0..3], &[5, 0, 1]);
}

#[test]
fn concave_polygon_gives_n_minus_two_triangles() {
    let mut p = polygon(&[(0, 0), (20, 0), (20, 20), (10, 5), (0, 20)]);
    p.verify();
    let idx = p.triangulate().unwrap();
    assert_eq!(idx.len(), 3 * (p.points.len() - 2));
    assert!(idx.iter().all(|&i| i < p.points.len()));
}

#[test]
fn triangle_areas_add_up_to_the_polygon_area() {
    let mut p = polygon(&[(0, 0), (30, 0), (30, 30), (20, 10), (10, 25), (0, 30)]);
    p.verify();
    let idx = p.triangulate().unwrap();
    let total: i128 = idx.chunks(3).map(|t| triangle_area2(&p.points, t[0], t[1], t[2])).sum();
    assert_eq!(total, area2(&p.points));
    assert!(idx.chunks(3).all(|t| triangle_area2(&p.points, t[0], t[1], t[2]) >= 0));
}

#[test]
fn triangles_wind_counter_clockwise() {
    let p = polygon(&[(0, 0), (10, 0), (10, 10), (0, 10)]);
    let idx = p.triangulate().unwrap();
    assert_eq!(idx, vec![3, 0, 1, 3, 1, 2]);
    for t in idx.chunks(3) {
        assert!(triangle_area2(&p.points, t[0], t[1], t[2]) > 0);
    }
}

#[test]
fn clockwise_polygon_has_no_ear() {
    let p = polygon(&[(0, 0), (0, 10), (10, 10), (10, 0)]);
    assert_eq!(p.triangulate(), Err(ShapeError::NoEar));
}
