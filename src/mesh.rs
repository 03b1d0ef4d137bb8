//! Triangle meshes: the result of filling shapes.
use vstd::prelude::*;

verus! {

/// A mesh vertex: a position on the fixed-point grid and an RGBA color.
#[derive(Clone, Copy, Debug)]
pub struct Vertex {
    pub position: [i64; 3],
    pub color: [u8; 4],
}

/// Vertices and a flat list of vertex indices, three per triangle.
#[derive(Debug)]
pub struct Mesh {
    pub vertices: Vec<Vertex>,
    pub indices: Vec<u32>,
}

/// The indices of `b` moved up by `offset`, as when `b` follows `offset` other vertices.
pub open spec fn shifted(b: Seq<u32>, offset: int) -> Seq<u32> {
    Seq::new(b.len(), |k: int| (b[k] + offset) as u32)
}

/// Every index of `b`, moved up by `offset`, still fits in 32 bits.
pub open spec fn shift_fits(b: Seq<u32>, offset: int) -> bool {
    forall|k: int| 0 <= k < b.len() ==> #[trigger] b[k] + offset <= u32::MAX
}

impl Mesh {
    /// The indices come in whole triangles and each names a vertex of the mesh.
    pub open spec fn wf(&self) -> bool {
        &&& self.indices@.len() % 3 == 0
        &&& forall|k: int| 0 <= k < self.indices@.len() ==> #[trigger] self.indices@[k] < self.vertices@.len()
    }

    /// A mesh without vertices or triangles.
    pub fn empty() -> (r: Mesh)
        ensures
            r.vertices@.len() == 0,
            r.indices@.len() == 0,
            r.wf(),
    {
        Mesh { vertices: Vec::new(), indices: Vec::new() }
    }

    /// Appends `other`: its vertices follow this mesh's, and its indices are moved up by
    /// the number of vertices this mesh had. Fails with `TooManyVertices`, leaving this
    /// mesh as it was, when a moved index would not fit in 32 bits.
    pub fn append(&mut self, other: Mesh) -> (r: Result<(), crate::error::ShapeError>)
        ensures
            r is Ok <==> old(self).vertices@.len() <= u32::MAX && shift_fits(
                other.indices@,
                old(self).vertices@.len() as int,
            ),
            r is Ok ==> final(self).vertices@ == old(self).vertices@ + other.vertices@,
            r is Ok ==> final(self).indices@ == old(self).indices@ + shifted(
                other.indices@,
                old(self).vertices@.len() as int,
            ),
            r matches Err(e) ==> e == crate::error::ShapeError::TooManyVertices && final(self).vertices@
                == old(self).vertices@ && final(self).indices@ == old(self).indices@,
            old(self).wf() && other.wf() && r is Ok ==> final(self).wf(),
    {
        let nv = self.vertices.len();
        if nv > 0xffff_ffff {
            return Err(crate::error::ShapeError::TooManyVertices);
        }
        let offset = nv as u32;
        let m = other.indices.len();
        let mut k: usize = 0;
        while k < m
            invariant
                m == other.indices@.len(),
                k <= m,
                forall|j: int| 0 <= j < k ==> #[trigger] other.indices@[j] + offset <= u32::MAX,
                offset == old(self).vertices@.len(),
                *self == *old(self),
            decreases m - k,
        {
            if other.indices[k] > 0xffff_ffff - offset {
                assert(other.indices@[k as int] + offset > u32::MAX);
                return Err(crate::error::ShapeError::TooManyVertices);
            }
            k = k + 1;
        }
        let ghost old_indices = self.indices@;
        let mut k: usize = 0;
        while k < m
            invariant
                m == other.indices@.len(),
                k <= m,
                offset == old(self).vertices@.len(),
                self.vertices@ == old(self).vertices@,
                shift_fits(other.indices@, offset as int),
                self.indices@ == old_indices + shifted(other.indices@, offset as int).subrange(0, k as int),
            decreases m - k,
        {
            self.indices.push(other.indices[k] + offset);
            k = k + 1;
            assert(self.indices@ =~= old_indices + shifted(other.indices@, offset as int).subrange(0, k as int));
        }
        assert(shifted(other.indices@, offset as int).subrange(0, m as int) =~= shifted(other.indices@, offset as int));
        let mut other_vertices = other.vertices;
        self.vertices.append(&mut other_vertices);
        proof {
            if old(self).wf() && other.wf() {
                let n = self.indices@.len();
                let n0 = old_indices.len();
                assert(n == n0 + m);
                assert(n % 3 == 0) by {
                    assert(n0 % 3 == 0 && m % 3 == 0);
                }
                assert forall|j: int| 0 <= j < n implies #[trigger] self.indices@[j] < self.vertices@.len() by {
                    if j >= n0 {
                        assert(self.indices@[j] == other.indices@[j - n0] + offset);
                    }
                }
            }
        }
        Ok(())
    }
}

} // verus!
