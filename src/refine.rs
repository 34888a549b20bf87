use vstd::prelude::*;
use crate::point::{IntPoint, area_two_point, lemma_at_bounds};
use crate::triangle::IntTriangle;
use crate::mesh::{area_sum, area_sum_prefix, boundary, mesh_delaunay};
use crate::delaunay::{IntDelaunay, DelaunayError};
use crate::validate::valid_mesh;

verus! {

/// A triangulation as the initial triangulator hands it over: valid
/// adjacency, no angle condition.
pub struct RawIntTriangulation {
    pub triangles: Vec<IntTriangle>,
    pub points: Vec<IntPoint>,
}

/// Every vertex point of the mesh lies in range.
pub open spec fn points_in_range(t: Seq<IntTriangle>) -> bool {
    forall|m: int, s: int| 0 <= m < t.len() && 0 <= s < 3 ==> (#[trigger] t[m].vertices@[s]).point.in_range()
}

impl RawIntTriangulation {
    /// Checks the mesh and refines it into a Delaunay triangulation. A mesh
    /// that fails the check is rejected with the first kind of defect found;
    /// a mesh that passes it is always refined.
    pub fn into_delaunay(self) -> (r: Result<IntDelaunay, DelaunayError>)
        ensures
            r is Ok <==> valid_mesh(self.triangles@, self.points@),
            r is Ok ==> {
                let d = r->Ok_0;
                &&& d.points == self.points
                &&& d.triangles.len() == self.triangles.len()
                &&& valid_mesh(d.triangles@, d.points@)
                &&& mesh_delaunay(d.triangles@)
                &&& area_sum(d.triangles@) == area_sum(self.triangles@)
                &&& boundary(d.triangles@) == boundary(self.triangles@)
                &&& mesh_delaunay(self.triangles@) ==> d.triangles@ == self.triangles@
            },
    {
        let mut delaunay = IntDelaunay { triangles: self.triangles, points: self.points };
        match delaunay.validate() {
            Err(e) => Err(e),
            Ok(()) => {
                delaunay.build();
                Ok(delaunay)
            },
        }
    }
}

impl IntDelaunay {
    /// Sum of twice the signed areas of the triangles.
    pub fn area(&self) -> (r: i128)
        requires
            points_in_range(self.triangles@),
        ensures
            r == area_sum(self.triangles@),
    {
        let n = self.triangles.len();
        let mut sum: i128 = 0;
        let mut i: usize = 0;
        while i < n
            invariant
                n == self.triangles.len(),
                points_in_range(self.triangles@),
                0 <= i <= n,
                sum == area_sum_prefix(self.triangles@, i as int),
                -(i as int) * 0x8000_0000_0000_0000 <= sum <= (i as int) * 0x8000_0000_0000_0000,
            decreases n - i,
        {
            let t = self.triangles[i];
            let a = t.vertices[0].point;
            let b = t.vertices[1].point;
            let c = t.vertices[2].point;
            assert(self.triangles@[i as int].vertices@[0].point.in_range());
            assert(self.triangles@[i as int].vertices@[1].point.in_range());
            assert(self.triangles@[i as int].vertices@[2].point.in_range());
            proof {
                lemma_at_bounds(a, c, b);
                assert((i as int) * 0x8000_0000_0000_0000 < 0x7fff_ffff_ffff_ffff_ffff_ffff_ffff_ffff)
                    by (nonlinear_arith)
                    requires
                        i < 0x1_0000_0000_0000_0000int,
                ;
            }
            let area = area_two_point(a, b, c);
            sum = sum + area as i128;
            i = i + 1;
        }
        sum
    }
}

} // verus!
