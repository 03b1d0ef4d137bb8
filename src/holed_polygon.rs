//! Polygons with holes.
use vstd::prelude::*;
use crate::polygon::{Polygon, verified};

verus! {

/// An outer polygon and the polygons of its holes.
#[derive(Debug)]
pub struct HoledPolygon {
    pub polygon: Polygon,
    pub holes: Vec<Polygon>,
}

impl HoledPolygon {
    /// The outer polygon and every hole are well formed.
    pub open spec fn wf(&self) -> bool {
        &&& self.polygon.wf()
        &&& forall|k: int| 0 <= k < self.holes@.len() ==> (#[trigger] self.holes@[k]).wf()
    }

    /// The polygon, without holes.
    pub fn from_polygon(polygon: Polygon) -> (r: HoledPolygon)
        ensures
            r.polygon == polygon,
            r.holes@.len() == 0,
    {
        HoledPolygon { polygon, holes: Vec::new() }
    }

    /// Verifies the outer polygon and each hole, every one on its own.
    pub fn verify(&mut self)
        requires
            old(self).wf(),
        ensures
            final(self).wf(),
            final(self).polygon.points@ == verified(old(self).polygon.points@, old(self).polygon.is_simple),
            final(self).polygon.is_simple,
            final(self).holes@.len() == old(self).holes@.len(),
            forall|k: int| 0 <= k < final(self).holes@.len() ==> {
                &&& (#[trigger] final(self).holes@[k]).points@ == verified(
                    old(self).holes@[k].points@,
                    old(self).holes@[k].is_simple,
                )
                &&& final(self).holes@[k].is_simple
            },
    {
        self.polygon.verify();
        let mut rest: Vec<Polygon> = Vec::new();
        std::mem::swap(&mut rest, &mut self.holes);
        let ghost before = rest@;
        let n = rest.len();
        let mut holes: Vec<Polygon> = Vec::new();
        let mut k: usize = 0;
        while k < n
            invariant
                n == before.len(),
                k <= n,
                rest@ == before.subrange(k as int, n as int),
                holes@.len() == k,
                forall|j: int| 0 <= j < before.len() ==> (#[trigger] before[j]).wf(),
                forall|j: int| 0 <= j < k ==> {
                    &&& (#[trigger] holes@[j]).wf()
                    &&& holes@[j].points@ == verified(before[j].points@, before[j].is_simple)
                    &&& holes@[j].is_simple
                },
            decreases n - k,
        {
            let mut hole = rest.remove(0);
            assert(hole == before[k as int]);
            hole.verify();
            holes.push(hole);
            k = k + 1;
            assert(rest@ =~= before.subrange(k as int, n as int));
        }
        self.holes = holes;
    }
}

} // verus!
