//! Open contours.
use vstd::prelude::*;
use crate::point::{Point, in_range, all_in_range};

verus! {

/// The vector from the second-to-last point of `s` to its last point.
pub open spec fn end_vector(s: Seq<Point>) -> (int, int) {
    (s[s.len() - 1].x - s[s.len() - 2].x, s[s.len() - 1].y - s[s.len() - 2].y)
}

/// An open sequence of points. `direction` caches the vector along the last segment.
#[derive(Debug)]
pub struct Polyline {
    pub points: Vec<Point>,
    pub direction: Option<Point>,
}

impl Default for Polyline {
    /// An empty line, with no direction cached.
    fn default() -> (r: Polyline)
        ensures
            r.wf(),
            r.points@.len() == 0,
            r.direction is None,
    {
        Polyline { points: Vec::new(), direction: None }
    }
}

impl Polyline {
    /// All points are in range and a cached direction is the last segment's vector.
    pub open spec fn wf(&self) -> bool {
        &&& all_in_range(self.points@)
        &&& (self.direction matches Some(d) ==> self.points@.len() >= 2 && (d.x as int, d.y as int)
            == end_vector(self.points@))
    }

    /// The line through `points`, with no direction cached.
    pub fn from_points(points: Vec<Point>) -> (r: Polyline)
        requires
            all_in_range(points@),
        ensures
            r.wf(),
            r.points@ == points@,
            r.direction is None,
    {
        Polyline { points, direction: None }
    }

    /// Appends a point; the cached direction no longer holds and is cleared.
    pub fn push(&mut self, point: Point)
        requires
            old(self).wf(),
            in_range(point),
        ensures
            final(self).wf(),
            final(self).points@ == old(self).points@.push(point),
            final(self).direction is None,
    {
        self.points.push(point);
        self.direction = None;
    }

    /// The direction the line ends in: the vector along its last segment.
    pub fn direction(&self) -> (r: Point)
        requires
            self.wf(),
            self.points@.len() >= 2,
        ensures
            (r.x as int, r.y as int) == end_vector(self.points@),
    {
        if let Some(d) = self.direction {
            d
        } else {
            let n = self.points.len();
            let p1 = self.points[n - 1];
            let p0 = self.points[n - 2];
            assert(in_range(self.points@[n - 1]) && in_range(self.points@[n - 2]));
            Point { x: p1.x - p0.x, y: p1.y - p0.y }
        }
    }
}

} // verus!
