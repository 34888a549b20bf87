use vstd::prelude::*;
use crate::point::{IntPoint, MAX_COORD, area_two_point};
use crate::triangle::{IntTriangle, NIL_INDEX, next_slot, prev_slot};
use crate::mesh::{link_ok, mesh_wf, refs_ok, vertex_ref_ok, lemma_proper_distinct};
use crate::delaunay::{IntDelaunay, DelaunayError};

verus! {

/// The mesh invariant, and every vertex names its point.
pub open spec fn valid_mesh(t: Seq<IntTriangle>, points: Seq<IntPoint>) -> bool {
    mesh_wf(t) && refs_ok(t, points)
}

fn in_range(p: IntPoint) -> (r: bool)
    ensures
        r == p.in_range(),
{
    -MAX_COORD <= p.x && p.x <= MAX_COORD && -MAX_COORD <= p.y && p.y <= MAX_COORD
}

/// Everything `valid_mesh` asks of triangle `m` alone and of its links.
pub open spec fn triangle_valid(t: Seq<IntTriangle>, points: Seq<IntPoint>, m: int) -> bool {
    &&& t[m].is_proper()
    &&& t[m].distinct_neighbors()
    &&& forall|s: int| 0 <= s < 3 ==> #[trigger] link_ok(t, m, s)
    &&& forall|s: int| 0 <= s < 3 ==> #[trigger] vertex_ref_ok(t, points, m, s)
}

/// A proper triangle whose links are all correct names no neighbor twice: the
/// two slots would see the same edge of the neighbor.
proof fn lemma_links_distinct(t: Seq<IntTriangle>, m: int)
    requires
        0 <= m < t.len(),
        t[m].is_proper(),
        forall|s: int| 0 <= s < 3 ==> #[trigger] link_ok(t, m, s),
    ensures
        t[m].distinct_neighbors(),
{
    lemma_proper_distinct(t[m]);
    assert forall|k1: int, k2: int|
        0 <= k1 < 3 && 0 <= k2 < 3 && k1 != k2 && t[m].neighbors@[k1] != NIL_INDEX
            implies t[m].neighbors@[k1] != t[m].neighbors@[k2] by {
        assert(link_ok(t, m, k1));
        assert(link_ok(t, m, k2));
    }
}

impl IntDelaunay {
    /// Checks the mesh invariant and the vertex references, and names the
    /// first kind of defect found.
    pub fn validate(&self) -> (r: Result<(), DelaunayError>)
        ensures
            r is Ok <==> valid_mesh(self.triangles@, self.points@),
            r == Err::<(), DelaunayError>(DelaunayError::TooManyTriangles) ==> self.triangles.len() >= NIL_INDEX,
            r == Err::<(), DelaunayError>(DelaunayError::BadVertex) ==> exists|m: int, s: int|
                0 <= m < self.triangles.len() && 0 <= s < 3 && !#[trigger] vertex_ref_ok(
                    self.triangles@,
                    self.points@,
                    m,
                    s,
                ),
            r == Err::<(), DelaunayError>(DelaunayError::PointOutOfRange) ==> exists|m: int, s: int|
                0 <= m < self.triangles.len() && 0 <= s < 3
                    && !(#[trigger] self.triangles@[m].vertices@[s]).point.in_range(),
            r == Err::<(), DelaunayError>(DelaunayError::NotClockwise) ==> exists|m: int|
                0 <= m < self.triangles.len() && (#[trigger] self.triangles@[m]).area() >= 0,
            r == Err::<(), DelaunayError>(DelaunayError::BrokenLink) ==> exists|m: int, s: int|
                0 <= m < self.triangles.len() && 0 <= s < 3 && !#[trigger] link_ok(
                    self.triangles@,
                    m,
                    s,
                ),
    {
        let n = self.triangles.len();
        if n >= NIL_INDEX {
            return Err(DelaunayError::TooManyTriangles);
        }
        let mut m: usize = 0;
        while m < n
            invariant
                n == self.triangles.len(),
                n < NIL_INDEX,
                0 <= m <= n,
                forall|q: int| 0 <= q < m ==> #[trigger] triangle_valid(self.triangles@, self.points@, q),
            decreases n - m,
        {
            let tri = self.triangles[m];
            let mut s: usize = 0;
            while s < 3
                invariant
                    0 <= s <= 3,
                    m < n,
                    n == self.triangles.len(),
                    tri == self.triangles@[m as int],
                    forall|q: int| 0 <= q < s ==> #[trigger] vertex_ref_ok(self.triangles@, self.points@, m as int, q),
                    forall|q: int| 0 <= q < s ==> (#[trigger] tri.vertices@[q]).point.in_range(),
                decreases 3 - s,
            {
                let v = tri.vertices[s];
                if v.index >= self.points.len() || !(self.points[v.index] == v.point) {
                    assert(!vertex_ref_ok(self.triangles@, self.points@, m as int, s as int));
                    assert(!refs_ok(self.triangles@, self.points@));
                    return Err(DelaunayError::BadVertex);
                }
                if !in_range(v.point) {
                    assert(!self.triangles@[m as int].vertices@[s as int].point.in_range());
                    assert(!self.triangles@[m as int].is_proper());
                    return Err(DelaunayError::PointOutOfRange);
                }
                assert(v == self.triangles@[m as int].vertices@[s as int]);
                assert(v.index < self.points.len());
                assert(self.points@[v.index as int] == v.point);
                assert(vertex_ref_ok(self.triangles@, self.points@, m as int, s as int));
                assert(tri.vertices@[s as int].point.in_range());
                s = s + 1;
            }
            assert(vertex_ref_ok(self.triangles@, self.points@, m as int, 0));
            assert(vertex_ref_ok(self.triangles@, self.points@, m as int, 1));
            assert(vertex_ref_ok(self.triangles@, self.points@, m as int, 2));
            if area_two_point(tri.vertices[0].point, tri.vertices[1].point, tri.vertices[2].point) >= 0 {
                assert(self.triangles@[m as int].area() >= 0);
                assert(!self.triangles@[m as int].is_proper());
                return Err(DelaunayError::NotClockwise);
            }
            let mut s: usize = 0;
            while s < 3
                invariant
                    0 <= s <= 3,
                    m < n,
                    n == self.triangles.len(),
                    n < NIL_INDEX,
                    tri == self.triangles@[m as int],
                    forall|q: int| 0 <= q < s ==> #[trigger] link_ok(self.triangles@, m as int, q),
                decreases 3 - s,
            {
                let q = tri.neighbors[s];
                if q != NIL_INDEX {
                    if q >= n || q == m {
                        assert(!link_ok(self.triangles@, m as int, s as int));
                        assert(!mesh_wf(self.triangles@));
                        return Err(DelaunayError::BrokenLink);
                    }
                    let other = self.triangles[q];
                    let r = other.neighbor_slot(m);
                    if other.neighbors[r] != m || other.vertices[next_slot(r)] != tri.vertices[prev_slot(s)]
                        || other.vertices[prev_slot(r)] != tri.vertices[next_slot(s)] {
                        assert(!link_ok(self.triangles@, m as int, s as int));
                        assert(!mesh_wf(self.triangles@));
                        return Err(DelaunayError::BrokenLink);
                    }
                }
                s = s + 1;
            }
            proof {
                lemma_links_distinct(self.triangles@, m as int);
            }
            assert(triangle_valid(self.triangles@, self.points@, m as int));
            m = m + 1;
        }
        proof {
            assert forall|q: int| 0 <= q < n implies #[trigger] self.triangles@[q].is_proper() by {
                assert(triangle_valid(self.triangles@, self.points@, q));
            }
            assert forall|q: int| 0 <= q < n implies #[trigger] self.triangles@[q].distinct_neighbors() by {
                assert(triangle_valid(self.triangles@, self.points@, q));
            }
            assert forall|q: int, s: int| 0 <= q < n && 0 <= s < 3 implies #[trigger] link_ok(self.triangles@, q, s) by {
                assert(triangle_valid(self.triangles@, self.points@, q));
            }
            assert forall|q: int, s: int| 0 <= q < n && 0 <= s < 3 implies #[trigger] vertex_ref_ok(self.triangles@, self.points@, q, s) by {
                assert(triangle_valid(self.triangles@, self.points@, q));
            }
        }
        Ok(())
    }
}

} // verus!
