use vstd::prelude::*;
use crate::point::{IntPoint, abs, cross_product, dot_product, flip_not_required, lemma_at_bounds};
use crate::triangle::{IntTriangle, NIL_INDEX, prv, next_slot, prev_slot, place};
use crate::mesh::{
    area_sum, flip_needed, is_flip_of, lemma_flip_refs, lemma_flip_volume, lemma_flip_wf,
    lemma_volume_nonpositive, locally_delaunay, mesh_delaunay, mesh_wf, refs_ok, relinked, volume_sum,
    covered, lemma_fixed_leaves_coverage, lemma_flip_keeps_coverage, boundary, lemma_flip_keeps_boundary,
};
use crate::triangle_set::TriangleSet;

verus! {

/// Why a mesh was rejected before refinement.
#[derive(Clone, Copy, Debug, PartialEq, Eq, Structural)]
pub enum DelaunayError {
    /// There are so many triangles that an index could equal `NIL_INDEX`.
    TooManyTriangles,
    /// A vertex index is outside the point array or names another point.
    BadVertex,
    /// A point lies farther than `MAX_COORD` from the origin on some axis.
    PointOutOfRange,
    /// A triangle is counter-clockwise or has zero area.
    NotClockwise,
    /// A neighbor link is dangling, points to its own triangle, is not
    /// returned, or disagrees on the shared edge.
    BrokenLink,
}

/// The indices that `buf` lists from position `from` on.
pub open spec fn listed(buf: Seq<usize>, from: int) -> Set<int> {
    Set::new(|v: int| exists|w: int| from <= w < buf.len() && buf[w] as int == v)
}

/// A triangle mesh refined by edge flips, with the points its vertices index.
pub struct IntDelaunay {
    pub triangles: Vec<IntTriangle>,
    pub points: Vec<IntPoint>,
}

/// Magnitude of an `i64` other than `i64::MIN`.
fn magnitude(v: i64) -> (r: u64)
    requires
        v > i64::MIN,
    ensures
        r == abs(v as int),
{
    if v < 0 {
        (-v) as u64
    } else {
        v as u64
    }
}

impl IntDelaunay {
    /// Decides whether the edge `b c`, shared by the triangle `a, b, c` and a
    /// triangle with apex `p`, already satisfies the angle-sum test.
    pub fn is_flip_not_required(p: IntPoint, a: IntPoint, b: IntPoint, c: IntPoint) -> (r: bool)
        requires
            p.in_range(),
            a.in_range(),
            b.in_range(),
            c.in_range(),
        ensures
            r == flip_not_required(p, a, b, c),
    {
        let cos_a = dot_product(p, b, c);
        let cos_b = dot_product(a, b, c);
        if cos_a < 0 && cos_b < 0 {
            return false;
        }
        proof {
            lemma_at_bounds(p, b, c);
            lemma_at_bounds(a, b, c);
        }
        let sn_a_signed = cross_product(p, b, c);
        let sn_b_signed = cross_product(a, b, c);
        let sn_a = magnitude(sn_a_signed);
        let sn_b = magnitude(sn_b_signed);
        if cos_a >= 0 && cos_b >= 0 {
            proof {
                let (sa, sb, ca, cb) = (sn_a as int, sn_b as int, cos_a as int, cos_b as int);
                assert(sa * cb + ca * sb >= 0) by (nonlinear_arith)
                    requires
                        sa >= 0,
                        sb >= 0,
                        ca >= 0,
                        cb >= 0,
                ;
            }
            return true;
        }
        if cos_a < 0 {
            let cos_a_abs = magnitude(cos_a);
            proof {
                let bound = 0x7fff_ffff_ffff_ffffint;
                assert((sn_a as int) * (cos_b as int) <= bound * bound) by (nonlinear_arith)
                    requires
                        0 <= sn_a <= bound,
                        0 <= cos_b <= bound,
                ;
                assert((cos_a_abs as int) * (sn_b as int) <= bound * bound) by (nonlinear_arith)
                    requires
                        0 <= cos_a_abs <= bound,
                        0 <= sn_b <= bound,
                ;
            }
            let sin_a_cos_b = (sn_a as u128) * (cos_b as u128);
            let cos_a_sin_b = (cos_a_abs as u128) * (sn_b as u128);
            proof {
                assert((cos_a_abs as int) * (sn_b as int) == -((cos_a as int) * (sn_b as int)))
                    by (nonlinear_arith)
                    requires
                        cos_a_abs as int == -(cos_a as int),
                ;
            }
            sin_a_cos_b >= cos_a_sin_b
        } else {
            let cos_b_abs = magnitude(cos_b);
            proof {
                let bound = 0x7fff_ffff_ffff_ffffint;
                assert((sn_a as int) * (cos_b_abs as int) <= bound * bound) by (nonlinear_arith)
                    requires
                        0 <= sn_a <= bound,
                        0 <= cos_b_abs <= bound,
                ;
                assert((cos_a as int) * (sn_b as int) <= bound * bound) by (nonlinear_arith)
                    requires
                        0 <= cos_a <= bound,
                        0 <= sn_b <= bound,
                ;
            }
            let sin_a_cos_b = (sn_a as u128) * (cos_b_abs as u128);
            let cos_a_sin_b = (cos_a as u128) * (sn_b as u128);
            proof {
                assert((sn_a as int) * (cos_b_abs as int) == -((sn_a as int) * (cos_b as int)))
                    by (nonlinear_arith)
                    requires
                        cos_b_abs as int == -(cos_b as int),
                ;
            }
            cos_a_sin_b >= sin_a_cos_b
        }
    }

    /// Replaces the neighbor `old_index` of triangle `neighbor_index` by
    /// `new_index`; nothing happens for a boundary value.
    pub(crate) fn update_neighbor(&mut self, neighbor_index: usize, old_index: usize, new_index: usize)
        requires
            neighbor_index < old(self).triangles.len() ==> old(self).triangles@[neighbor_index as int].has_neighbor(old_index),
        ensures
            final(self).points == old(self).points,
            final(self).triangles.len() == old(self).triangles.len(),
            neighbor_index >= old(self).triangles.len() ==> final(self).triangles@ == old(self).triangles@,
            neighbor_index < old(self).triangles.len() ==> {
                &&& relinked(final(self).triangles@[neighbor_index as int], old(self).triangles@[neighbor_index as int], old_index, new_index)
                &&& final(self).triangles@ == old(self).triangles@.update(neighbor_index as int, final(self).triangles@[neighbor_index as int])
            },
    {
        if neighbor_index >= self.triangles.len() {
            return;
        }
        let mut t = self.triangles[neighbor_index];
        t.update_neighbor(old_index, new_index);
        self.triangles.set(neighbor_index, t);
    }

    /// Tests the pair formed by triangle `abc_index` and its neighbor
    /// `pcb_index`, and swaps their common diagonal when the pair fails the
    /// angle-sum test; the two new triangles are then clockwise too. Returns
    /// whether it swapped.
    pub fn swap_triangles(&mut self, abc_index: usize, pcb_index: usize) -> (r: bool)
        requires
            mesh_wf(old(self).triangles@),
            abc_index < old(self).triangles.len(),
            pcb_index != NIL_INDEX,
            old(self).triangles@[abc_index as int].has_neighbor(pcb_index),
        ensures
            final(self).points == old(self).points,
            mesh_wf(final(self).triangles@),
            refs_ok(old(self).triangles@, old(self).points@) ==> refs_ok(
                final(self).triangles@,
                final(self).points@,
            ),
            area_sum(final(self).triangles@) == area_sum(old(self).triangles@),
            boundary(final(self).triangles@) == boundary(old(self).triangles@),
            r == flip_needed(
                old(self).triangles@,
                abc_index as int,
                old(self).triangles@[abc_index as int].slot_of(pcb_index),
            ),
            !r ==> final(self).triangles@ == old(self).triangles@,
            r ==> is_flip_of(
                old(self).triangles@,
                final(self).triangles@,
                abc_index as int,
                old(self).triangles@[abc_index as int].slot_of(pcb_index),
            ),
            r ==> volume_sum(final(self).triangles@) > volume_sum(old(self).triangles@),
    {
        let ghost t = self.triangles@;
        let t_abc = self.triangles[abc_index];
        let k = t_abc.neighbor_slot(pcb_index);
        proof {
            assert(crate::mesh::link_ok(t, abc_index as int, k as int));
        }
        let t_pcb = self.triangles[pcb_index];
        let j = t_pcb.neighbor_slot(abc_index);
        let k1 = next_slot(k);
        let k2 = prev_slot(k);
        let j1 = next_slot(j);
        let j2 = prev_slot(j);
        let a = t_abc.vertices[k];
        let b = t_abc.vertices[k1];
        let c = t_abc.vertices[k2];
        let p = t_pcb.vertices[j];
        proof {
            assert(t[abc_index as int].is_proper());
            assert(t[pcb_index as int].is_proper());
        }
        if Self::is_flip_not_required(p.point, a.point, b.point, c.point) {
            return false;
        }
        proof {
            crate::mesh::lemma_flip_frame(t, abc_index as int, k as int);
        }
        let x = t_abc.neighbors[k1];
        let z = t_abc.neighbors[k2];
        let y = t_pcb.neighbors[j1];
        let w = t_pcb.neighbors[j2];
        proof {
            if x != NIL_INDEX {
                crate::mesh::lemma_named_back(t, abc_index as int, k1 as int);
            }
            if y != NIL_INDEX {
                crate::mesh::lemma_named_back(t, pcb_index as int, j1 as int);
            }
        }
        self.update_neighbor(x, abc_index, pcb_index);
        self.update_neighbor(y, pcb_index, abc_index);
        let abp = IntTriangle { vertices: place(k, a, b, p), neighbors: place(k, y, pcb_index, z) };
        let pca = IntTriangle { vertices: place(j, p, c, a), neighbors: place(j, x, abc_index, w) };
        self.triangles.set(abc_index, abp);
        self.triangles.set(pcb_index, pca);
        proof {
            let t2 = self.triangles@;
            assert(t2[abc_index as int].vertices@ =~= t[abc_index as int].vertices@.update(prv(k as int), p));
            assert(t2[pcb_index as int].vertices@ =~= t[pcb_index as int].vertices@.update(prv(j as int), a));
            assert(is_flip_of(t, t2, abc_index as int, k as int));
            lemma_flip_wf(t, t2, abc_index as int, k as int);
            lemma_flip_volume(t, t2, abc_index as int, k as int);
            lemma_flip_keeps_boundary(t, t2, abc_index as int, k as int);
            if refs_ok(t, self.points@) {
                lemma_flip_refs(t, t2, abc_index as int, k as int, self.points@);
            }
        }
        true
    }

    /// Tests triangle `abc_index` against its neighbors and flips with the
    /// first that needs it, again and again on the new shape, without testing
    /// the neighbor just flipped with right away. Each flip adds the other
    /// triangle of the pair to `unchecked`; at the end `abc_index` leaves it.
    /// Every neighbor that is not left in `unchecked` then passes the test.
    /// Returns whether it flipped.
    fn fix_triangle(&mut self, abc_index: usize, unchecked: &mut TriangleSet, Ghost(extra): Ghost<Set<int>>) -> (r: bool)
        requires
            mesh_wf(old(self).triangles@),
            abc_index < old(self).triangles.len(),
            old(unchecked).wf(),
            old(unchecked).bound() == old(self).triangles.len(),
        ensures
            final(self).points == old(self).points,
            mesh_wf(final(self).triangles@),
            refs_ok(old(self).triangles@, old(self).points@) ==> refs_ok(
                final(self).triangles@,
                final(self).points@,
            ),
            final(self).triangles.len() == old(self).triangles.len(),
            area_sum(final(self).triangles@) == area_sum(old(self).triangles@),
            boundary(final(self).triangles@) == boundary(old(self).triangles@),
            final(unchecked).wf(),
            final(unchecked).bound() == old(unchecked).bound(),
            !final(unchecked)@.contains(abc_index as int),
            forall|s: int|
                0 <= s < 3 && final(self).triangles@[abc_index as int].neighbors@[s] != NIL_INDEX
                    && !final(unchecked)@.contains(final(self).triangles@[abc_index as int].neighbors@[s] as int)
                    ==> !#[trigger] flip_needed(final(self).triangles@, abc_index as int, s),
            r ==> volume_sum(final(self).triangles@) > volume_sum(old(self).triangles@),
            !r ==> final(self).triangles@ == old(self).triangles@,
            !r ==> final(unchecked)@ == old(unchecked)@.remove(abc_index as int),
            !r ==> locally_delaunay(final(self).triangles@, abc_index as int),
            locally_delaunay(old(self).triangles@, abc_index as int) ==> !r,
            covered(old(self).triangles@, old(unchecked)@.insert(abc_index as int).union(extra)) ==> covered(
                final(self).triangles@,
                final(unchecked)@.union(extra),
            ),
    {
        let ghost t0 = self.triangles@;
        let ghost u0 = unchecked@;
        let n = self.triangles.len();
        let mut skip = NIL_INDEX;
        let mut flipped = false;
        proof {
            lemma_volume_nonpositive(t0);
        }
        loop
            invariant
                self.points == old(self).points,
                mesh_wf(self.triangles@),
                refs_ok(t0, old(self).points@) ==> refs_ok(self.triangles@, self.points@),
                self.triangles.len() == n,
                n == old(self).triangles.len(),
                abc_index < n,
                area_sum(self.triangles@) == area_sum(t0),
                boundary(self.triangles@) == boundary(t0),
                t0 == old(self).triangles@,
                u0 == old(unchecked)@,
                unchecked.wf(),
                unchecked.bound() == n,
                volume_sum(self.triangles@) <= 0,
                flipped ==> volume_sum(self.triangles@) > volume_sum(t0),
                !flipped ==> self.triangles@ == t0 && skip == NIL_INDEX && unchecked@ == u0,
                skip != NIL_INDEX ==> skip < n && skip != abc_index && unchecked@.contains(skip as int),
                locally_delaunay(t0, abc_index as int) ==> !flipped,
                covered(t0, u0.insert(abc_index as int).union(extra)) ==> covered(
                    self.triangles@,
                    unchecked@.insert(abc_index as int).union(extra),
                ),
            ensures
                self.points == old(self).points,
                mesh_wf(self.triangles@),
                refs_ok(t0, old(self).points@) ==> refs_ok(self.triangles@, self.points@),
                self.triangles.len() == n,
                area_sum(self.triangles@) == area_sum(t0),
                boundary(self.triangles@) == boundary(t0),
                unchecked.wf(),
                unchecked.bound() == n,
                flipped ==> volume_sum(self.triangles@) > volume_sum(t0),
                !flipped ==> self.triangles@ == t0 && skip == NIL_INDEX && unchecked@ == u0,
                skip != NIL_INDEX ==> skip < n && skip != abc_index && unchecked@.contains(skip as int),
                forall|s: int|
                    0 <= s < 3 && self.triangles@[abc_index as int].neighbors@[s] != NIL_INDEX
                        && self.triangles@[abc_index as int].neighbors@[s] != skip
                        ==> !#[trigger] flip_needed(self.triangles@, abc_index as int, s),
                locally_delaunay(t0, abc_index as int) ==> !flipped,
                covered(t0, u0.insert(abc_index as int).union(extra)) ==> covered(
                    self.triangles@,
                    unchecked@.insert(abc_index as int).union(extra),
                ),
            decreases -volume_sum(self.triangles@),
        {
            let neighbors = self.triangles[abc_index].neighbors;
            let ghost t = self.triangles@;
            let ghost skip0 = skip;
            let ghost unchecked0 = unchecked@;
            let mut swapped = false;
            let mut s: usize = 0;
            while s < 3
                invariant_except_break
                    !swapped,
                invariant
                    !swapped ==> skip == skip0,
                    !swapped ==> unchecked@ == unchecked0,
                    self.points == old(self).points,
                    mesh_wf(self.triangles@),
                    refs_ok(t0, old(self).points@) ==> refs_ok(self.triangles@, self.points@),
                    self.triangles.len() == n,
                    abc_index < n,
                    t.len() == n,
                    mesh_wf(t),
                    unchecked.wf(),
                    unchecked.bound() == n,
                    0 <= s <= 3,
                    neighbors == t[abc_index as int].neighbors,
                    !swapped ==> self.triangles@ == t,
                    swapped ==> area_sum(self.triangles@) == area_sum(t),
                    swapped ==> boundary(self.triangles@) == boundary(t),
                    swapped ==> volume_sum(self.triangles@) > volume_sum(t),
                    swapped ==> skip != NIL_INDEX && skip < n && skip != abc_index && unchecked@.contains(skip as int),
                    !swapped ==> forall|q: int|
                        0 <= q < s && neighbors@[q] != NIL_INDEX && neighbors@[q] != skip
                            ==> !#[trigger] flip_needed(t, abc_index as int, q),
                    swapped ==> locally_delaunay(t, abc_index as int) ==> false,
                    swapped ==> covered(t, unchecked0.insert(abc_index as int).union(extra)) ==> covered(
                        self.triangles@,
                        unchecked@.insert(abc_index as int).union(extra),
                    ),
                ensures
                    !swapped ==> s == 3,
                decreases 3 - s,
            {
                let pbc_index = neighbors[s];
                if pbc_index < n && pbc_index != skip {
                    proof {
                        assert(t[abc_index as int].distinct_neighbors());
                        assert(crate::mesh::link_ok(t, abc_index as int, s as int));
                        assert(t[abc_index as int].slot_of(pbc_index) == s);
                        assert(self.triangles@[abc_index as int].neighbors@[s as int] == pbc_index);
                    }
                    if self.swap_triangles(abc_index, pbc_index) {
                        let ghost t2 = self.triangles@;
                        skip = pbc_index;
                        unchecked.insert(pbc_index);
                        proof {
                            let pend = unchecked0.insert(abc_index as int).union(extra);
                            if covered(t, pend) {
                                lemma_flip_keeps_coverage(t, t2, abc_index as int, s as int, pend);
                                assert(pend.insert(abc_index as int).insert(pbc_index as int) =~= unchecked@.insert(
                                    abc_index as int,
                                ).union(extra));
                            }
                        }
                        swapped = true;
                        break;
                    }
                }
                proof {
                    if neighbors@[s as int] != NIL_INDEX && pbc_index >= n {
                        assert(crate::mesh::link_ok(t, abc_index as int, s as int));
                    }
                }
                s = s + 1;
            }
            if !swapped {
                break;
            }
            proof {
                lemma_volume_nonpositive(self.triangles@);
            }
            flipped = true;
        }
        let ghost u_end = unchecked@;
        unchecked.remove(abc_index);
        proof {
            if !flipped {
                assert(unchecked@ =~= old(unchecked)@.remove(abc_index as int));
            }
            let rest = unchecked@.union(extra);
            if covered(t0, u0.insert(abc_index as int).union(extra)) {
                assert(rest.insert(abc_index as int) =~= u_end.insert(abc_index as int).union(extra));
                lemma_fixed_leaves_coverage(self.triangles@, abc_index as int, rest);
            }
        }
        flipped
    }

    /// Fixes every triangle of `buffer`, then the triangles that those fixes
    /// put in `unchecked`, round after round, until a round leaves nothing to
    /// check. `buffer` and `unchecked` end empty.
    pub fn fix_triangles(&mut self, buffer: &mut Vec<usize>, unchecked: &mut TriangleSet)
        requires
            mesh_wf(old(self).triangles@),
            old(unchecked).wf(),
            old(unchecked).bound() == old(self).triangles.len(),
            old(unchecked)@ == Set::<int>::empty(),
            forall|q: int| 0 <= q < old(buffer).len() ==> #[trigger] old(buffer)@[q] < old(self).triangles.len(),
        ensures
            final(self).points == old(self).points,
            mesh_wf(final(self).triangles@),
            refs_ok(old(self).triangles@, old(self).points@) ==> refs_ok(
                final(self).triangles@,
                final(self).points@,
            ),
            final(self).triangles.len() == old(self).triangles.len(),
            area_sum(final(self).triangles@) == area_sum(old(self).triangles@),
            boundary(final(self).triangles@) == boundary(old(self).triangles@),
            final(unchecked).wf(),
            final(unchecked).bound() == old(unchecked).bound(),
            final(unchecked)@ == Set::<int>::empty(),
            final(buffer).len() == 0,
            volume_sum(final(self).triangles@) >= volume_sum(old(self).triangles@),
            mesh_delaunay(old(self).triangles@) ==> final(self).triangles@ == old(self).triangles@,
            covered(old(self).triangles@, listed(old(buffer)@, 0)) ==> mesh_delaunay(final(self).triangles@),
    {
        let ghost t0 = self.triangles@;
        let ghost b0 = buffer@;
        let n = self.triangles.len();
        proof {
            lemma_volume_nonpositive(t0);
        }
        loop
            invariant
                self.points == old(self).points,
                mesh_wf(self.triangles@),
                refs_ok(t0, old(self).points@) ==> refs_ok(self.triangles@, self.points@),
                self.triangles.len() == n,
                n == old(self).triangles.len(),
                area_sum(self.triangles@) == area_sum(t0),
                boundary(self.triangles@) == boundary(t0),
                t0 == old(self).triangles@,
                unchecked.wf(),
                unchecked.bound() == n,
                unchecked@ == Set::<int>::empty(),
                forall|q: int| 0 <= q < buffer.len() ==> #[trigger] buffer@[q] < n,
                volume_sum(self.triangles@) <= 0,
                volume_sum(self.triangles@) >= volume_sum(t0),
                mesh_delaunay(t0) ==> self.triangles@ == t0,
                b0 == old(buffer)@,
                covered(t0, listed(b0, 0)) ==> covered(self.triangles@, listed(buffer@, 0)),
            ensures
                buffer.len() == 0,
                covered(t0, listed(b0, 0)) ==> covered(self.triangles@, listed(buffer@, 0)),
            decreases -volume_sum(self.triangles@), buffer.len(),
        {
            if buffer.len() == 0 {
                break;
            }
            let ghost round_start = self.triangles@;
            let mut any = false;
            let mut q: usize = 0;
            while q < buffer.len()
                invariant
                    self.points == old(self).points,
                    mesh_wf(self.triangles@),
                    refs_ok(t0, old(self).points@) ==> refs_ok(self.triangles@, self.points@),
                    self.triangles.len() == n,
                    area_sum(self.triangles@) == area_sum(t0),
                    boundary(self.triangles@) == boundary(t0),
                boundary(self.triangles@) == boundary(t0),
                    unchecked.wf(),
                    unchecked.bound() == n,
                    forall|p: int| 0 <= p < buffer.len() ==> #[trigger] buffer@[p] < n,
                    0 <= q <= buffer.len(),
                    volume_sum(self.triangles@) >= volume_sum(round_start),
                    any ==> volume_sum(self.triangles@) > volume_sum(round_start),
                    !any ==> self.triangles@ == round_start,
                    !any ==> unchecked@.subset_of(Set::<int>::empty()),
                    mesh_delaunay(round_start) ==> !any,
                    covered(t0, listed(b0, 0)) ==> covered(self.triangles@, listed(buffer@, q as int).union(unchecked@)),
                decreases buffer.len() - q,
            {
                let abc_index = buffer[q];
                proof {
                    assert(buffer@[q as int] < n);
                    assert(listed(buffer@, q as int).union(unchecked@) =~= unchecked@.insert(abc_index as int).union(
                        listed(buffer@, q as int + 1),
                    ));
                }
                if self.fix_triangle(abc_index, unchecked, Ghost(listed(buffer@, q as int + 1))) {
                    any = true;
                }
                proof {
                    assert(unchecked@.union(listed(buffer@, q as int + 1)) =~= listed(buffer@, q as int + 1).union(unchecked@));
                }
                q = q + 1;
            }
            proof {
                assert(listed(buffer@, q as int).union(unchecked@) =~= unchecked@);
            }
            buffer.clear();
            proof {
                if !any {
                    assert(unchecked@ =~= Set::<int>::empty());
                }
                lemma_volume_nonpositive(self.triangles@);
            }
            let ghost before = unchecked@;
            proof {
                unchecked.lemma_bounded();
            }
            unchecked.drain_into(buffer);
            proof {
                assert(buffer@.subrange(0, buffer.len() as int) =~= buffer@);
                assert(listed(buffer@, 0) =~= before) by {
                    assert forall|v: int| listed(buffer@, 0).contains(v) implies before.contains(v) by {
                        let w = choose|w: int| 0 <= w < buffer.len() && buffer@[w] as int == v;
                        assert(before.contains(buffer@[w] as int));
                    }
                    assert forall|v: int| before.contains(v) implies listed(buffer@, 0).contains(v) by {
                        assert(0 <= v);
                        assert(buffer@.subrange(0, buffer.len() as int).contains(v as usize));
                        let w = choose|w: int| 0 <= w < buffer.len() && buffer@[w] == v as usize;
                        assert(buffer@[w] as int == v);
                    }
                }
                if !any && buffer.len() > 0 {
                    assert(before.contains(buffer@[0] as int));
                }
                assert forall|p: int| 0 <= p < buffer.len() implies #[trigger] buffer@[p] < n by {
                    assert(0 <= p < buffer.len());
                }
            }
        }
        proof {
            if covered(t0, listed(b0, 0)) {
                assert(listed(buffer@, 0) =~= Set::<int>::empty());
                crate::mesh::lemma_covered_by_none(self.triangles@);
            }
        }
    }

    /// Refines the mesh by flips until no pair of adjacent triangles needs one.
    /// It always gets there: each flip raises the total lifted volume, an
    /// integer that never exceeds 0.
    pub fn build(&mut self)
        requires
            mesh_wf(old(self).triangles@),
        ensures
            final(self).points == old(self).points,
            mesh_wf(final(self).triangles@),
            refs_ok(old(self).triangles@, old(self).points@) ==> refs_ok(
                final(self).triangles@,
                final(self).points@,
            ),
            final(self).triangles.len() == old(self).triangles.len(),
            area_sum(final(self).triangles@) == area_sum(old(self).triangles@),
            boundary(final(self).triangles@) == boundary(old(self).triangles@),
            mesh_delaunay(final(self).triangles@),
            mesh_delaunay(old(self).triangles@) ==> final(self).triangles@ == old(self).triangles@,
    {
        let ghost t0 = self.triangles@;
        let n = self.triangles.len();
        let mut unchecked = TriangleSet::new(n);
        let mut buffer: Vec<usize> = Vec::new();
        proof {
            lemma_volume_nonpositive(t0);
        }
        loop
            invariant
                self.points == old(self).points,
                mesh_wf(self.triangles@),
                refs_ok(t0, old(self).points@) ==> refs_ok(self.triangles@, self.points@),
                self.triangles.len() == n,
                n == old(self).triangles.len(),
                area_sum(self.triangles@) == area_sum(t0),
                boundary(self.triangles@) == boundary(t0),
                t0 == old(self).triangles@,
                unchecked.wf(),
                unchecked.bound() == n,
                buffer.len() == 0,
                volume_sum(self.triangles@) <= 0,
                mesh_delaunay(t0) ==> self.triangles@ == t0,
            decreases -volume_sum(self.triangles@),
        {
            let ghost pass_start = self.triangles@;
            let mut any = false;
            let mut i: usize = 0;
            while i < n
                invariant
                    self.points == old(self).points,
                    mesh_wf(self.triangles@),
                    refs_ok(t0, old(self).points@) ==> refs_ok(self.triangles@, self.points@),
                    self.triangles.len() == n,
                    area_sum(self.triangles@) == area_sum(t0),
                    boundary(self.triangles@) == boundary(t0),
                boundary(self.triangles@) == boundary(t0),
                    unchecked.wf(),
                    unchecked.bound() == n,
                    0 <= i <= n,
                    volume_sum(self.triangles@) >= volume_sum(pass_start),
                    any ==> volume_sum(self.triangles@) > volume_sum(pass_start),
                    !any ==> self.triangles@ == pass_start,
                    !any ==> forall|m: int| 0 <= m < i ==> #[trigger] locally_delaunay(self.triangles@, m),
                    mesh_delaunay(pass_start) ==> !any,
                decreases n - i,
            {
                proof {
                    if mesh_delaunay(pass_start) {
                        assert(locally_delaunay(pass_start, i as int));
                    }
                }
                if self.fix_triangle(i, &mut unchecked, Ghost(Set::<int>::empty())) {
                    any = true;
                }
                i = i + 1;
            }
            if !any {
                return;
            }
            let ghost drained = unchecked@;
            unchecked.drain_into(&mut buffer);
            proof {
                assert forall|q: int| 0 <= q < buffer.len() implies #[trigger] buffer@[q] < n by {
                    assert(0 <= q < buffer.len());
                }
            }
            self.fix_triangles(&mut buffer, &mut unchecked);
            proof {
                lemma_volume_nonpositive(self.triangles@);
            }
        }
    }
}

} // verus!
