use vstd::prelude::*;
use crate::point::IntPoint;
use crate::triangle::IntTriangle;
use crate::convex::Delaunay;

verus! {

/// A triangulation in flat form: the points, and three point indices per
/// triangle.
pub struct Triangulation {
    pub points: Vec<IntPoint>,
    pub indices: Vec<usize>,
}

/// The largest vertex index among the first `len` triangles (0 for none).
pub open spec fn max_vertex_index(t: Seq<IntTriangle>, len: int) -> int
    decreases len,
{
    if len <= 0 {
        0
    } else {
        let m = max_vertex_index(t, len - 1);
        let v = t[len - 1].vertices@;
        let i0 = v[0].index as int;
        let i1 = v[1].index as int;
        let i2 = v[2].index as int;
        let m0 = if i0 > m { i0 } else { m };
        let m1 = if i1 > m0 { i1 } else { m0 };
        if i2 > m1 { i2 } else { m1 }
    }
}

/// The point recorded for index `i` by the first `len` triangles: that of the
/// last vertex with this index, in triangle then slot order, or the origin.
pub open spec fn recorded_point(t: Seq<IntTriangle>, len: int, i: int) -> IntPoint
    decreases len,
{
    if len <= 0 {
        IntPoint { x: 0, y: 0 }
    } else {
        let v = t[len - 1].vertices@;
        if v[2].index == i {
            v[2].point
        } else if v[1].index == i {
            v[1].point
        } else if v[0].index == i {
            v[0].point
        } else {
            recorded_point(t, len - 1, i)
        }
    }
}

proof fn lemma_max_vertex_index(t: Seq<IntTriangle>, len: int, m: int, s: int)
    requires
        0 <= m < len <= t.len(),
        0 <= s < 3,
    ensures
        t[m].vertices@[s].index <= max_vertex_index(t, len),
        max_vertex_index(t, len) >= 0,
    decreases len,
{
    if m < len - 1 {
        lemma_max_vertex_index(t, len - 1, m, s);
    }
}

proof fn lemma_max_vertex_index_nonneg(t: Seq<IntTriangle>, len: int)
    requires
        0 <= len <= t.len(),
    ensures
        max_vertex_index(t, len) >= 0,
    decreases len,
{
    if len > 0 {
        lemma_max_vertex_index_nonneg(t, len - 1);
    }
}

impl Delaunay {
    /// The mesh as flat arrays: `indices` lists the vertex indices of each
    /// triangle in turn, raised by `shifted`; `points` has one entry per index
    /// up to the largest, holding the point of the last vertex with that index.
    pub fn to_triangulation(&self, shifted: usize) -> (r: Triangulation)
        requires
            max_vertex_index(self.triangles@, self.triangles.len() as int) + shifted < usize::MAX,
        ensures
            r.indices.len() == 3 * self.triangles.len(),
            forall|m: int, s: int|
                0 <= m < self.triangles.len() && 0 <= s < 3 ==> r.indices@[3 * m + s]
                    == (#[trigger] self.triangles@[m].vertices@[s]).index + shifted,
            r.points.len() == max_vertex_index(self.triangles@, self.triangles.len() as int) + 1,
            forall|i: int|
                0 <= i < r.points.len() ==> #[trigger] r.points@[i] == recorded_point(
                    self.triangles@,
                    self.triangles.len() as int,
                    i,
                ),
    {
        let ghost t = self.triangles@;
        let n = self.triangles.len();
        proof {
            lemma_max_vertex_index_nonneg(t, n as int);
        }
        let mut indices: Vec<usize> = Vec::new();
        let mut max_index: usize = 0;
        let mut m: usize = 0;
        while m < n
            invariant
                t == self.triangles@,
                n == t.len(),
                0 <= m <= n,
                max_vertex_index(t, n as int) + shifted < usize::MAX,
                max_index == max_vertex_index(t, m as int),
                indices.len() == 3 * m,
                forall|m2: int, s: int|
                    0 <= m2 < m && 0 <= s < 3 ==> indices@[3 * m2 + s] == (#[trigger] t[m2].vertices@[s]).index + shifted,
            decreases n - m,
        {
            let tri = self.triangles[m];
            proof {
                lemma_max_vertex_index(t, n as int, m as int, 0);
                lemma_max_vertex_index(t, n as int, m as int, 1);
                lemma_max_vertex_index(t, n as int, m as int, 2);
            }
            let a = tri.vertices[0].index;
            let b = tri.vertices[1].index;
            let c = tri.vertices[2].index;
            let ghost before = indices@;
            indices.push(a + shifted);
            indices.push(b + shifted);
            indices.push(c + shifted);
            if a > max_index {
                max_index = a;
            }
            if b > max_index {
                max_index = b;
            }
            if c > max_index {
                max_index = c;
            }
            proof {
                assert forall|m2: int, s: int|
                    0 <= m2 < m + 1 && 0 <= s < 3 implies indices@[3 * m2 + s] == (#[trigger] t[m2].vertices@[s]).index + shifted by {
                    if m2 < m {
                        assert(indices@[3 * m2 + s] == before[3 * m2 + s]);
                    }
                }
            }
            m = m + 1;
        }
        let mut points: Vec<IntPoint> = vec![IntPoint { x: 0, y: 0 }; max_index + 1];
        let mut m: usize = 0;
        while m < n
            invariant
                t == self.triangles@,
                n == t.len(),
                0 <= m <= n,
                max_index == max_vertex_index(t, n as int),
                points.len() == max_index + 1,
                forall|i: int| 0 <= i < points.len() ==> #[trigger] points@[i] == recorded_point(t, m as int, i),
            decreases n - m,
        {
            let tri = self.triangles[m];
            proof {
                lemma_max_vertex_index(t, n as int, m as int, 0);
                lemma_max_vertex_index(t, n as int, m as int, 1);
                lemma_max_vertex_index(t, n as int, m as int, 2);
            }
            points.set(tri.vertices[0].index, tri.vertices[0].point);
            points.set(tri.vertices[1].index, tri.vertices[1].point);
            points.set(tri.vertices[2].index, tri.vertices[2].point);
            m = m + 1;
        }
        Triangulation { points, indices }
    }
}


/// Number of points that the flat form of `d` has.
pub open spec fn flat_len(d: Delaunay) -> int {
    max_vertex_index(d.triangles@, d.triangles.len() as int) + 1
}

/// Where the points of mesh `k` start when the first `k` meshes are joined.
pub open spec fn point_offset(meshes: Seq<Delaunay>, k: int) -> int
    decreases k,
{
    if k <= 0 {
        0
    } else {
        point_offset(meshes, k - 1) + flat_len(meshes[k - 1])
    }
}

/// Where the indices of mesh `k` start when the first `k` meshes are joined.
pub open spec fn index_offset(meshes: Seq<Delaunay>, k: int) -> int
    decreases k,
{
    if k <= 0 {
        0
    } else {
        index_offset(meshes, k - 1) + 3 * meshes[k - 1].triangles.len()
    }
}

proof fn lemma_point_offset_grows(meshes: Seq<Delaunay>, k: int, n: int)
    requires
        0 <= k <= n <= meshes.len(),
    ensures
        0 <= point_offset(meshes, k) <= point_offset(meshes, n),
    decreases n,
{
    if n > 0 {
        lemma_max_vertex_index_nonneg(meshes[n - 1].triangles@, meshes[n - 1].triangles.len() as int);
        lemma_point_offset_grows(meshes, if k < n { k } else { n - 1 }, n - 1);
    }
}

proof fn lemma_join_points(meshes: Seq<Delaunay>, k: int, points0: Seq<IntPoint>, pp: Seq<IntPoint>)
    requires
        0 <= k < meshes.len(),
        points0.len() == point_offset(meshes, k),
        pp.len() == flat_len(meshes[k]),
        forall|k2: int, i: int|
            0 <= k2 < k && 0 <= i < flat_len(meshes[k2]) ==> points0[point_offset(meshes, k2) + i]
                == #[trigger] recorded_point(meshes[k2].triangles@, meshes[k2].triangles.len() as int, i),
        forall|i: int|
            0 <= i < pp.len() ==> #[trigger] pp[i] == recorded_point(meshes[k].triangles@, meshes[k].triangles.len() as int, i),
    ensures
        forall|k2: int, i: int|
            0 <= k2 < k + 1 && 0 <= i < flat_len(meshes[k2]) ==> (points0 + pp)[point_offset(meshes, k2) + i]
                == #[trigger] recorded_point(meshes[k2].triangles@, meshes[k2].triangles.len() as int, i),
{
    assert forall|k2: int, i: int|
        0 <= k2 < k + 1 && 0 <= i < flat_len(meshes[k2]) implies (points0 + pp)[point_offset(meshes, k2) + i]
            == #[trigger] recorded_point(meshes[k2].triangles@, meshes[k2].triangles.len() as int, i) by {
        if k2 < k {
            lemma_point_offset_grows(meshes, k2 + 1, k);
            lemma_point_offset_grows(meshes, k2, k);
            assert(point_offset(meshes, k2 + 1) == point_offset(meshes, k2) + flat_len(meshes[k2]));
        } else {
            assert(pp[i] == recorded_point(meshes[k].triangles@, meshes[k].triangles.len() as int, i));
        }
    }
}

proof fn lemma_join_indices(meshes: Seq<Delaunay>, k: int, indices0: Seq<usize>, pi: Seq<usize>)
    requires
        0 <= k < meshes.len(),
        indices0.len() == index_offset(meshes, k),
        pi.len() == 3 * meshes[k].triangles.len(),
        forall|k2: int, m: int, s: int|
            0 <= k2 < k && 0 <= m < meshes[k2].triangles.len() && 0 <= s < 3 ==> indices0[index_offset(meshes, k2) + 3 * m
                + s] == (#[trigger] meshes[k2].triangles@[m].vertices@[s]).index + point_offset(meshes, k2),
        forall|m: int, s: int|
            0 <= m < meshes[k].triangles.len() && 0 <= s < 3 ==> pi[3 * m + s] == (
            #[trigger] meshes[k].triangles@[m].vertices@[s]).index + point_offset(meshes, k),
    ensures
        forall|k2: int, m: int, s: int|
            0 <= k2 < k + 1 && 0 <= m < meshes[k2].triangles.len() && 0 <= s < 3 ==> (indices0 + pi)[index_offset(
                meshes,
                k2,
            ) + 3 * m + s] == (#[trigger] meshes[k2].triangles@[m].vertices@[s]).index + point_offset(meshes, k2),
{
    assert forall|k2: int, m: int, s: int|
        0 <= k2 < k + 1 && 0 <= m < meshes[k2].triangles.len() && 0 <= s < 3 implies (indices0 + pi)[index_offset(
            meshes,
            k2,
        ) + 3 * m + s] == (#[trigger] meshes[k2].triangles@[m].vertices@[s]).index + point_offset(meshes, k2) by {
        if k2 < k {
            lemma_index_offset_grows(meshes, k2 + 1, k);
            lemma_index_offset_grows(meshes, k2, k);
            assert(index_offset(meshes, k2 + 1) == index_offset(meshes, k2) + 3 * meshes[k2].triangles.len());
        }
    }
}

/// Joins the flat forms of several meshes: each mesh's points follow those of
/// the meshes before it, and its indices are raised by as much.
#[verifier::rlimit(30)]
pub fn triangulation(meshes: &Vec<Delaunay>) -> (r: Triangulation)
    requires
        point_offset(meshes@, meshes.len() as int) < usize::MAX,
        index_offset(meshes@, meshes.len() as int) <= usize::MAX,
    ensures
        r.points.len() == point_offset(meshes@, meshes.len() as int),
        r.indices.len() == index_offset(meshes@, meshes.len() as int),
        forall|k: int, i: int|
            0 <= k < meshes.len() && 0 <= i < flat_len(meshes@[k]) ==> r.points@[point_offset(meshes@, k) + i]
                == #[trigger] recorded_point(meshes@[k].triangles@, meshes@[k].triangles.len() as int, i),
        forall|k: int, m: int, s: int|
            0 <= k < meshes.len() && 0 <= m < meshes@[k].triangles.len() && 0 <= s < 3 ==> r.indices@[index_offset(
                meshes@,
                k,
            ) + 3 * m + s] == (#[trigger] meshes@[k].triangles@[m].vertices@[s]).index + point_offset(meshes@, k),
{
    let mut points: Vec<IntPoint> = Vec::new();
    let mut indices: Vec<usize> = Vec::new();
    let mut k: usize = 0;
    while k < meshes.len()
        invariant
            0 <= k <= meshes.len(),
            point_offset(meshes@, meshes.len() as int) < usize::MAX,
            index_offset(meshes@, meshes.len() as int) <= usize::MAX,
            points.len() == point_offset(meshes@, k as int),
            indices.len() == index_offset(meshes@, k as int),
            forall|k2: int, i: int|
                0 <= k2 < k && 0 <= i < flat_len(meshes@[k2]) ==> points@[point_offset(meshes@, k2) + i]
                    == #[trigger] recorded_point(meshes@[k2].triangles@, meshes@[k2].triangles.len() as int, i),
            forall|k2: int, m: int, s: int|
                0 <= k2 < k && 0 <= m < meshes@[k2].triangles.len() && 0 <= s < 3 ==> indices@[index_offset(
                    meshes@,
                    k2,
                ) + 3 * m + s] == (#[trigger] meshes@[k2].triangles@[m].vertices@[s]).index + point_offset(meshes@, k2),
        decreases meshes.len() - k,
    {
        proof {
            lemma_point_offset_grows(meshes@, k as int + 1, meshes.len() as int);
            lemma_index_offset_grows(meshes@, k as int + 1, meshes.len() as int);
        }
        let part = meshes[k].to_triangulation(points.len());
        let ghost points0 = points@;
        let ghost indices0 = indices@;
        let mut part_points = part.points;
        let mut part_indices = part.indices;
        let ghost pp = part_points@;
        let ghost pi = part_indices@;
        points.append(&mut part_points);
        indices.append(&mut part_indices);
        proof {
            assert(points@ == points0 + pp);
            assert(indices@ == indices0 + pi);
            lemma_join_points(meshes@, k as int, points0, pp);
            lemma_join_indices(meshes@, k as int, indices0, pi);
        }
        k = k + 1;
    }
    Triangulation { points, indices }
}

proof fn lemma_index_offset_grows(meshes: Seq<Delaunay>, k: int, n: int)
    requires
        0 <= k <= n <= meshes.len(),
    ensures
        0 <= index_offset(meshes, k) <= index_offset(meshes, n),
    decreases n,
{
    if n > 0 {
        lemma_index_offset_grows(meshes, if k < n { k } else { n - 1 }, n - 1);
    }
}

} // verus!
