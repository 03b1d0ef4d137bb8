//! Combinators that chain, branch and merge shapes.
use vstd::prelude::*;
use crate::error::ShapeError;
use crate::holed_polygon::HoledPolygon;
use crate::mesh::{Mesh, shifted, shift_fits};
use crate::point::Point;
use crate::polygon::{Polygon, verified};
use crate::polyline::Polyline;
use crate::shape::{Config, Fork, Shape};

verus! {

/// Runs `input`, then feeds its output to `output`.
#[derive(Debug)]
pub struct Combine<I, O> {
    pub input: I,
    pub output: O,
}

impl<I: Shape, O: Shape<Input = I::Output>> Shape for Combine<I, O> {
    type Input = I::Input;
    type Output = O::Output;

    open spec fn accepts(&self, x: I::Input) -> bool {
        &&& self.input.accepts(x)
        &&& forall|cfg: Config, y: I::Output| #[trigger] self.input.gives(cfg, x, Ok(y)) ==> self.output.accepts(y)
    }

    open spec fn gives(&self, cfg: Config, x: I::Input, r: Result<O::Output, ShapeError>) -> bool {
        exists|y: Result<I::Output, ShapeError>|
            #[trigger] self.input.gives(cfg, x, y) && match y {
                Ok(v) => self.output.gives(cfg, v, r),
                Err(e) => r == Err::<O::Output, ShapeError>(e),
            }
    }

    fn generate(&self, cfg: &Config, x: I::Input) -> (r: Result<O::Output, ShapeError>) {
        let y = self.input.generate(cfg, x);
        match y {
            Ok(v) => self.output.generate(cfg, v),
            Err(e) => Err(e),
        }
    }
}

/// `r` is `a` with `b` appended, or the failure to append it.
pub open spec fn appended(a: Mesh, b: Mesh, r: Result<Mesh, ShapeError>) -> bool {
    let fits = a.vertices@.len() <= u32::MAX && shift_fits(b.indices@, a.vertices@.len() as int);
    match r {
        Ok(m) => fits && m.vertices@ == a.vertices@ + b.vertices@ && m.indices@ == a.indices@ + shifted(
            b.indices@,
            a.vertices@.len() as int,
        ),
        Err(e) => !fits && e == ShapeError::TooManyVertices,
    }
}

fn append_mesh(mut a: Mesh, b: Mesh) -> (r: Result<Mesh, ShapeError>)
    ensures
        appended(a, b, r),
{
    match a.append(b) {
        Ok(()) => Ok(a),
        Err(e) => Err(e),
    }
}

/// Appends a mesh generated from nothing to the incoming mesh.
#[derive(Debug)]
pub struct CombineMesh<T> {
    pub mesh: T,
}

impl<T: Shape<Input = (), Output = Mesh>> Shape for CombineMesh<T> {
    type Input = Mesh;
    type Output = Mesh;

    open spec fn accepts(&self, a: Mesh) -> bool {
        self.mesh.accepts(())
    }

    open spec fn gives(&self, cfg: Config, a: Mesh, r: Result<Mesh, ShapeError>) -> bool {
        exists|y: Result<Mesh, ShapeError>|
            #[trigger] self.mesh.gives(cfg, (), y) && match y {
                Ok(b) => appended(a, b, r),
                Err(e) => r == Err::<Mesh, ShapeError>(e),
            }
    }

    fn generate(&self, cfg: &Config, a: Mesh) -> (r: Result<Mesh, ShapeError>) {
        let y = self.mesh.generate(cfg, ());
        match y {
            Ok(b) => append_mesh(a, b),
            Err(e) => Err(e),
        }
    }
}

/// Merges a pair of meshes into one.
#[derive(Clone, Copy, Debug)]
pub struct CombineMeshes;

impl Shape for CombineMeshes {
    type Input = (Mesh, Mesh);
    type Output = Mesh;

    open spec fn accepts(&self, x: (Mesh, Mesh)) -> bool {
        true
    }

    open spec fn gives(&self, cfg: Config, x: (Mesh, Mesh), r: Result<Mesh, ShapeError>) -> bool {
        appended(x.0, x.1, r)
    }

    fn generate(&self, cfg: &Config, x: (Mesh, Mesh)) -> (r: Result<Mesh, ShapeError>) {
        let (a, b) = x;
        append_mesh(a, b)
    }
}

/// Passes its input through unchanged: the start of a sub-pipeline.
#[derive(Debug)]
pub struct Id<T> {
    _marker: std::marker::PhantomData<T>,
}

impl<T> Id<T> {
    /// The identity shape on `T`.
    pub fn new() -> (r: Id<T>) {
        Id { _marker: std::marker::PhantomData }
    }
}

impl<T> Shape for Id<T> {
    type Input = T;
    type Output = T;

    open spec fn accepts(&self, x: T) -> bool {
        true
    }

    open spec fn gives(&self, cfg: Config, x: T, r: Result<T, ShapeError>) -> bool {
        r == Ok::<T, ShapeError>(x)
    }

    fn generate(&self, cfg: &Config, x: T) -> (r: Result<T, ShapeError>) {
        Ok(x)
    }
}

/// Closes a polyline into a polygon by joining its end to its start.
#[derive(Clone, Copy, Debug)]
pub struct Complete;

impl Shape for Complete {
    type Input = Polyline;
    type Output = Polygon;

    open spec fn accepts(&self, line: Polyline) -> bool {
        line.wf()
    }

    open spec fn gives(&self, cfg: Config, line: Polyline, r: Result<Polygon, ShapeError>) -> bool {
        r matches Ok(p) && p.wf() && p.points@ == line.points@ && p.is_ccw is None && p.is_convex is None
            && !p.is_simple
    }

    fn generate(&self, cfg: &Config, line: Polyline) -> (r: Result<Polygon, ShapeError>) {
        Ok(Polygon::from_points(line.points))
    }
}

/// Punches a hole, generated from nothing, into the incoming polygon.
#[derive(Debug)]
pub struct Hole<H> {
    pub hole: H,
}

impl<H: Shape<Input = (), Output = Polygon>> Shape for Hole<H> {
    type Input = Polygon;
    type Output = HoledPolygon;

    open spec fn accepts(&self, p: Polygon) -> bool {
        self.hole.accepts(())
    }

    open spec fn gives(&self, cfg: Config, p: Polygon, r: Result<HoledPolygon, ShapeError>) -> bool {
        exists|y: Result<Polygon, ShapeError>|
            #[trigger] self.hole.gives(cfg, (), y) && match y {
                Ok(h) => r matches Ok(hp) && hp.polygon == p && hp.holes@ == seq![h],
                Err(e) => r == Err::<HoledPolygon, ShapeError>(e),
            }
    }

    fn generate(&self, cfg: &Config, p: Polygon) -> (r: Result<HoledPolygon, ShapeError>) {
        let y = self.hole.generate(cfg, ());
        match y {
            Ok(h) => {
                let mut holes: Vec<Polygon> = Vec::new();
                holes.push(h);
                assert(holes@ =~= seq![h]);
                Ok(HoledPolygon { polygon: p, holes })
            },
            Err(e) => Err(e),
        }
    }
}

/// Feeds its input to two sub-pipelines, each with its own normalized copy, and
/// returns both outputs.
#[derive(Debug)]
pub struct Split<T, U> {
    pub t: T,
    pub u: U,
}

impl<T: Shape, U: Shape<Input = T::Input>> Shape for Split<T, U> where T::Input: Fork {
    type Input = T::Input;
    type Output = (T::Output, U::Output);

    open spec fn accepts(&self, x: T::Input) -> bool {
        &&& x.forkable()
        &&& forall|c: T::Input| #[trigger] x.forks_to(c) ==> self.t.accepts(c) && self.u.accepts(c)
    }

    open spec fn gives(&self, cfg: Config, x: T::Input, r: Result<(T::Output, U::Output), ShapeError>) -> bool {
        exists|c1: T::Input, r1: Result<T::Output, ShapeError>|
            x.forks_to(c1) && #[trigger] self.t.gives(cfg, c1, r1) && match r1 {
                Err(e) => r == Err::<(T::Output, U::Output), ShapeError>(e),
                Ok(a) => exists|c2: T::Input, r2: Result<U::Output, ShapeError>|
                    x.forks_to(c2) && #[trigger] self.u.gives(cfg, c2, r2) && match r2 {
                        Ok(b) => r == Ok::<(T::Output, U::Output), ShapeError>((a, b)),
                        Err(e) => r == Err::<(T::Output, U::Output), ShapeError>(e),
                    },
            }
    }

    fn generate(&self, cfg: &Config, x: T::Input) -> (r: Result<(T::Output, U::Output), ShapeError>) {
        let (c1, c2) = x.fork();
        let r1 = self.t.generate(cfg, c1);
        match r1 {
            Err(e) => Err(e),
            Ok(a) => {
                let r2 = self.u.generate(cfg, c2);
                match r2 {
                    Ok(b) => Ok((a, b)),
                    Err(e) => Err(e),
                }
            },
        }
    }
}

/// A copy of the points.
pub fn copy_points(v: &Vec<Point>) -> (r: Vec<Point>)
    ensures
        r@ == v@,
{
    let n = v.len();
    let mut r: Vec<Point> = Vec::with_capacity(n);
    let mut i: usize = 0;
    while i < n
        invariant
            n == v@.len(),
            i <= n,
            r@ == v@.subrange(0, i as int),
        decreases n - i,
    {
        r.push(v[i]);
        i = i + 1;
        assert(r@ =~= v@.subrange(0, i as int));
    }
    assert(v@.subrange(0, n as int) =~= v@);
    r
}

impl Polygon {
    /// The polygons hold the same points and the same classifications.
    pub open spec fn same(&self, other: Polygon) -> bool {
        &&& self.points@ == other.points@
        &&& self.is_ccw == other.is_ccw
        &&& self.is_convex == other.is_convex
        &&& self.is_simple == other.is_simple
    }

    /// A copy of the polygon.
    pub fn copy(&self) -> (r: Polygon)
        ensures
            r.same(*self),
    {
        Polygon {
            points: copy_points(&self.points),
            is_ccw: self.is_ccw,
            is_convex: self.is_convex,
            is_simple: self.is_simple,
        }
    }
}

impl Fork for Polygon {
    open spec fn forkable(&self) -> bool {
        self.wf()
    }

    /// Each branch gets the verified polygon, so that neither has to normalize it again.
    open spec fn forks_to(&self, copy: Polygon) -> bool {
        &&& copy.wf()
        &&& copy.points@ == verified(self.points@, self.is_simple)
        &&& copy.is_simple
    }

    fn fork(self) -> (r: (Polygon, Polygon)) {
        let mut p = self;
        p.verify();
        let q = p.copy();
        (p, q)
    }
}

impl Fork for Polyline {
    open spec fn forkable(&self) -> bool {
        self.wf()
    }

    open spec fn forks_to(&self, copy: Polyline) -> bool {
        copy.wf() && copy.points@ == self.points@ && copy.direction == self.direction
    }

    fn fork(self) -> (r: (Polyline, Polyline)) {
        let q = Polyline { points: copy_points(&self.points), direction: self.direction };
        (self, q)
    }
}

impl Fork for HoledPolygon {
    open spec fn forkable(&self) -> bool {
        self.wf()
    }

    open spec fn forks_to(&self, copy: HoledPolygon) -> bool {
        &&& copy.wf()
        &&& copy.polygon.same(self.polygon)
        &&& copy.holes@.len() == self.holes@.len()
        &&& forall|k: int| 0 <= k < self.holes@.len() ==> (#[trigger] copy.holes@[k]).same(self.holes@[k])
    }

    fn fork(self) -> (r: (HoledPolygon, HoledPolygon)) {
        let n = self.holes.len();
        let mut holes: Vec<Polygon> = Vec::with_capacity(n);
        let mut k: usize = 0;
        while k < n
            invariant
                n == self.holes@.len(),
                k <= n,
                holes@.len() == k,
                forall|j: int| 0 <= j < k ==> (#[trigger] holes@[j]).same(self.holes@[j]),
            decreases n - k,
        {
            holes.push(self.holes[k].copy());
            k = k + 1;
        }
        let q = HoledPolygon { polygon: self.polygon.copy(), holes };
        assert(q.wf());
        (self, q)
    }
}

impl Fork for Mesh {
    open spec fn forkable(&self) -> bool {
        true
    }

    open spec fn forks_to(&self, copy: Mesh) -> bool {
        copy.vertices@ == self.vertices@ && copy.indices@ == self.indices@
    }

    fn fork(self) -> (r: (Mesh, Mesh)) {
        let n = self.vertices.len();
        let mut vertices = Vec::with_capacity(n);
        let mut k: usize = 0;
        while k < n
            invariant
                n == self.vertices@.len(),
                k <= n,
                vertices@ == self.vertices@.subrange(0, k as int),
            decreases n - k,
        {
            vertices.push(self.vertices[k]);
            k = k + 1;
            assert(vertices@ =~= self.vertices@.subrange(0, k as int));
        }
        assert(vertices@ =~= self.vertices@);
        let m = self.indices.len();
        let mut indices = Vec::with_capacity(m);
        let mut k: usize = 0;
        while k < m
            invariant
                m == self.indices@.len(),
                k <= m,
                indices@ == self.indices@.subrange(0, k as int),
            decreases m - k,
        {
            indices.push(self.indices[k]);
            k = k + 1;
            assert(indices@ =~= self.indices@.subrange(0, k as int));
        }
        assert(indices@ =~= self.indices@);
        let q = Mesh { vertices, indices };
        (self, q)
    }
}

} // verus!
