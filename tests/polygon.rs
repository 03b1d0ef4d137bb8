use scissor::{Point, Polygon};

fn pts(coords: &[(i64, i64)]) -> Vec<Point> {
    coords.iter().map(|&(x, y)| Point::new(x, y)).collect()
}

fn polygon(coords: &[(i64, i64)]) -> Polygon {
    Polygon::from_points(pts(coords))
}

fn coords(p: &Polygon) -> Vec<(i64, i64)> {
    p.points.iter().map(|q| (q.x, q.y)).collect()
}

#[test]
fn ccw_square_is_ccw_and_cw_square_is_not() {
    let mut ccw = polygon(&[(0, 0), (10, 0), (10, 10), (0, 10)]);
    assert!(ccw.is_ccw());
    assert_eq!(ccw.is_ccw, Some(true));
    let mut cw = polygon(&[(0, 0), (0, 10), (10, 10), (10, 0)]);
    assert!(!cw.is_ccw());
}

#[test]
fn convexity_checks_every_vertex() {
    let mut square = polygon(&[(0, 0), (10, 0), (10, 10), (0, 10)]);
    assert!(square.is_convex());
    let mut dart = polygon(&[(0, 0), (10, 0), (5, 2), (5, 10)]);
    assert!(!dart.is_convex());
    let mut cw = polygon(&[(0, 0), (0, 10), (10, 10), (10, 0)]);
    assert!(!cw.is_convex());
}

#[test]
fn clean_drops_collinear_and_repeated_points() {
    let mut p = polygon(&[(0, 0), (5, 0), (10, 0), (10, 10), (10, 10), (0, 10)]);
    p.clean();
    assert_eq!(coords(&p), vec![(0, 0), (10, 0), (10, 10), (0, 10)]);
    assert_eq!(p.is_ccw, None);
}

#[test]
fn clean_drops_a_collinear_closing_point() {
    let mut p = polygon(&[(5, 0), (10, 0), (10, 10), (0, 10), (0, 0)]);
    p.clean();
    assert_eq!(coords(&p), vec![(10, 0), (10, 10), (0, 10), (0, 0)]);
}

#[test]
fn bowtie_has_one_crossing_pair() {
    let p = polygon(&[(0, 0), (10, 10), (10, 0), (0, 10)]);
    let crossings = p.intersections();
    assert_eq!(crossings, vec![vec![2], vec![], vec![0], vec![]]);
    let pairs: usize = crossings.iter().map(|c| c.len()).sum::<usize>() / 2;
    assert_eq!(pairs, 1);
}

#[test]
fn bowtie_loop_is_cut_away() {
    let mut p = polygon(&[(0, 0), (10, 10), (10, 0), (0, 10)]);
    p.remove_intersection();
    p.clean();
    assert_eq!(coords(&p), vec![(0, 0), (0, 10)]);
    assert!(p.intersections().iter().all(|c| c.is_empty()));
}

#[test]
fn crossing_loop_is_cut_from_a_larger_contour() {
    // The edge (20, 0)-(20, 20) and the edge (25, 10)-(15, 10) cross; the small loop
    // between them goes.
    let mut p = polygon(&[(0, 0), (20, 0), (20, 20), (25, 20), (25, 10), (15, 10), (15, 30), (0, 30)]);
    assert_eq!(p.intersections()[1], vec![4]);
    p.remove_intersection();
    assert_eq!(coords(&p), vec![(0, 0), (20, 0), (15, 10), (15, 30), (0, 30)]);
    p.clean();
    assert_eq!(p.points.len(), 5);
    assert!(p.intersections().iter().all(|c| c.is_empty()));
}

#[test]
fn verify_turns_clockwise_polygons_around() {
    let mut p = polygon(&[(0, 0), (0, 10), (10, 10), (10, 0)]);
    p.verify();
    assert_eq!(coords(&p), vec![(10, 0), (10, 10), (0, 10), (0, 0)]);
    assert!(p.is_ccw());
    assert!(p.is_simple);
}

#[test]
fn verify_twice_matches_verify_once() {
    let raw = [(0, 0), (0, 10), (5, 10), (10, 10), (10, 0), (7, 3)];
    let mut once = polygon(&raw);
    once.verify();
    let mut twice = polygon(&raw);
    twice.verify();
    twice.verify();
    assert_eq!(coords(&once), coords(&twice));
    assert!(twice.is_ccw());
}

#[test]
fn verify_skips_polygons_marked_simple() {
    let mut p = polygon(&[(0, 0), (5, 0), (10, 0), (10, 10), (0, 10)]);
    p.is_simple = true;
    p.verify();
    assert_eq!(p.points.len(), 5);
}

#[test]
fn hole_is_bridged_to_the_nearest_point_above() {
    let mut outer = polygon(&[(0, 0), (100, 0), (100, 100), (0, 100)]);
    let hole = polygon(&[(40, 40), (60, 40), (60, 60), (40, 60)]);
    assert!(outer.can_bridge(&hole));
    outer.merge_hole(hole);
    // Top of the hole: (40, 60), the last point at the greatest height; nearest point
    // above it: (0, 100), at index 3.
    assert_eq!(
        coords(&outer),
        vec![
            (0, 0),
            (100, 0),
            (100, 100),
            (0, 100),
            (40, 60),
            (60, 60),
            (60, 40),
            (40, 40),
            (40, 60),
            (0, 100),
        ]
    );
    assert_eq!(outer.is_ccw, None);
}

#[test]
fn hole_without_a_point_above_it_is_refused() {
    let mut outer = polygon(&[(0, 0), (100, 0), (100, 50), (0, 50)]);
    let hole = polygon(&[(40, 40), (60, 40), (60, 60), (40, 60)]);
    assert!(!outer.can_bridge(&hole));
    let empty = Polygon::new();
    assert!(!outer.can_bridge(&empty));
}

#[test]
fn push_clears_the_classifications() {
    let mut p = polygon(&[(0, 0), (10, 0), (10, 10)]);
    assert!(p.is_ccw());
    p.is_simple = true;
    p.push(Point::new(0, 10));
    assert_eq!(p.is_ccw, None);
    assert!(!p.is_simple);
    assert_eq!(p.points.len(), 4);
}

#[test]
fn pentagram_edges_each_cross_two_others() {
    let p = polygon(&[(0, 100), (59, -81), (-95, 31), (95, 31), (-59, -81)]);
    let mut crossings = p.intersections();
    for list in crossings.iter_mut() {
        list.sort();
    }
    assert_eq!(crossings, vec![vec![2, 3], vec![3, 4], vec![0, 4], vec![0, 1], vec![1, 2]]);
}

#[test]
fn simple_polygon_has_no_crossings() {
    let p = polygon(&[(0, 0), (30, 0), (30, 30), (20, 10), (10, 25), (0, 30)]);
    assert!(p.intersections().iter().all(|c| c.is_empty()));
}

#[test]
fn default_shapes_are_empty() {
    let p = Polygon::default();
    assert!(p.points.is_empty());
    assert_eq!(p.is_ccw, None);
    assert!(!p.is_simple);
    let line = scissor::Polyline::default();
    assert!(line.points.is_empty());
    assert_eq!(line.direction, None);
}
