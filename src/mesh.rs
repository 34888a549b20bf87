use vstd::prelude::*;
use crate::point::{IntPoint, area_two, flip_not_required, lemma_test_sign, lemma_flip_keeps_orientation};
use crate::triangle::{IntTriangle, NIL_INDEX, nxt, prv, placed};

verus! {

/// Slot `s` of triangle `m` is a boundary edge, or it names another triangle
/// that names `m` back, at the slot where it sees the same edge reversed.
pub open spec fn link_ok(t: Seq<IntTriangle>, m: int, s: int) -> bool {
    let q = t[m].neighbors@[s];
    q == NIL_INDEX || (q < t.len() && q != m && {
        let r = t[q as int].slot_of(m as usize);
        &&& t[q as int].neighbors@[r] == m
        &&& t[q as int].vertices@[nxt(r)] == t[m].vertices@[prv(s)]
        &&& t[q as int].vertices@[prv(r)] == t[m].vertices@[nxt(s)]
    })
}

/// The mesh invariant: every triangle is strictly clockwise with its points in
/// range and distinct neighbors, and all neighbor links are symmetric and agree
/// on the shared edge.
pub open spec fn mesh_wf(t: Seq<IntTriangle>) -> bool {
    &&& t.len() < NIL_INDEX
    &&& forall|m: int| 0 <= m < t.len() ==> #[trigger] t[m].is_proper()
    &&& forall|m: int| 0 <= m < t.len() ==> #[trigger] t[m].distinct_neighbors()
    &&& forall|m: int, s: int| 0 <= m < t.len() && 0 <= s < 3 ==> #[trigger] link_ok(t, m, s)
}

/// The pair formed by triangle `i` and its neighbor at slot `k` violates the
/// angle-sum test.
pub open spec fn flip_needed(t: Seq<IntTriangle>, i: int, k: int) -> bool {
    let n = t[i].neighbors@[k] as int;
    let j = t[n].slot_of(i as usize);
    let a = t[i].vertices@[k].point;
    let b = t[i].vertices@[nxt(k)].point;
    let c = t[i].vertices@[prv(k)].point;
    let p = t[n].vertices@[j].point;
    !flip_not_required(p, a, b, c)
}

/// No neighbor of triangle `i` forms a pair with it that needs a flip.
pub open spec fn locally_delaunay(t: Seq<IntTriangle>, i: int) -> bool {
    forall|s: int| 0 <= s < 3 && t[i].neighbors@[s] != NIL_INDEX ==> !#[trigger] flip_needed(t, i, s)
}

/// No pair of adjacent triangles needs a flip: the fixpoint of refinement.
pub open spec fn mesh_delaunay(t: Seq<IntTriangle>) -> bool {
    forall|i: int| 0 <= i < t.len() ==> #[trigger] locally_delaunay(t, i)
}

/// `t2` is `t` with the neighbor `o` of `t` replaced by `n`, as
/// `IntTriangle::update_neighbor` does.
pub open spec fn relinked(t2: IntTriangle, t: IntTriangle, o: usize, n: usize) -> bool {
    t2.vertices == t.vertices && t2.neighbors@ == t.neighbors@.update(t.slot_of(o), n)
}

/// `t2` is `t` after the diagonal swap of triangle `i` (vertices `a, b, c`
/// from slot `k`) and its neighbor `n` across `b c` (vertices `p, c, b` from
/// slot `j`): `i` becomes `a, b, p`, `n` becomes `p, c, a`, and the triangles
/// across `c a` and `b p` are relinked to their new owner.
pub open spec fn is_flip_of(t: Seq<IntTriangle>, t2: Seq<IntTriangle>, i: int, k: int) -> bool {
    let n = t[i].neighbors@[k];
    let j = t[n as int].slot_of(i as usize);
    let x = t[i].neighbors@[nxt(k)];
    let z = t[i].neighbors@[prv(k)];
    let y = t[n as int].neighbors@[nxt(j)];
    let w = t[n as int].neighbors@[prv(j)];
    &&& t2.len() == t.len()
    &&& t2[i].vertices@ == t[i].vertices@.update(prv(k), t[n as int].vertices@[j])
    &&& placed(t2[i].neighbors, k, y, n, z)
    &&& t2[n as int].vertices@ == t[n as int].vertices@.update(prv(j), t[i].vertices@[k])
    &&& placed(t2[n as int].neighbors, j, x, i as usize, w)
    &&& x != NIL_INDEX ==> relinked(t2[x as int], t[x as int], i as usize, n)
    &&& y != NIL_INDEX ==> relinked(t2[y as int], t[y as int], n, i as usize)
    &&& forall|m: int|
        0 <= m < t.len() && m != i && m != n && m != x && m != y ==> #[trigger] t2[m] == t[m]
}

/// Sum of twice the signed areas of the first `len` triangles.
pub open spec fn area_sum_prefix(t: Seq<IntTriangle>, len: int) -> int
    decreases len,
{
    if len <= 0 {
        0
    } else {
        area_sum_prefix(t, len - 1) + t[len - 1].area()
    }
}

/// Sum of twice the signed areas of all triangles.
pub open spec fn area_sum(t: Seq<IntTriangle>) -> int {
    area_sum_prefix(t, t.len() as int)
}

pub proof fn lemma_area_sum_update(t: Seq<IntTriangle>, m: int, v: IntTriangle, len: int)
    requires
        0 <= m < t.len(),
        0 <= len <= t.len(),
    ensures
        area_sum_prefix(t.update(m, v), len) == area_sum_prefix(t, len) + (if m < len {
            v.area() - t[m].area()
        } else {
            0
        }),
    decreases len,
{
    if len > 0 {
        lemma_area_sum_update(t, m, v, len - 1);
    }
}

/// Twice the signed area does not depend on which vertex is listed first.
pub proof fn lemma_area_rotate(a: IntPoint, b: IntPoint, c: IntPoint)
    ensures
        area_two(a, b, c) == area_two(b, c, a),
        area_two(a, b, c) == -area_two(a, c, b),
{
    assert(area_two(a, b, c) == area_two(b, c, a)) by (nonlinear_arith);
    assert(area_two(a, b, c) == -area_two(a, c, b)) by (nonlinear_arith);
}

/// The area of a triangle read from any slot.
pub proof fn lemma_area_from(tri: IntTriangle, k: int)
    requires
        0 <= k < 3,
    ensures
        tri.area() == area_two(
            tri.vertices@[k].point,
            tri.vertices@[nxt(k)].point,
            tri.vertices@[prv(k)].point,
        ),
{
    lemma_area_rotate(tri.vertices@[0].point, tri.vertices@[1].point, tri.vertices@[2].point);
    lemma_area_rotate(tri.vertices@[1].point, tri.vertices@[2].point, tri.vertices@[0].point);
}

/// A triangle with nonzero area has three distinct points.
pub proof fn lemma_nonzero_area_distinct(a: IntPoint, b: IntPoint, c: IntPoint)
    requires
        area_two(a, b, c) != 0,
    ensures
        a != b,
        b != c,
        a != c,
{
    if a == b {
        assert(area_two(a, b, c) == 0) by (nonlinear_arith)
            requires
                a == b,
        ;
    }
    if b == c {
        assert(area_two(a, b, c) == 0) by (nonlinear_arith)
            requires
                b == c,
        ;
    }
    if a == c {
        assert(area_two(a, b, c) == 0) by (nonlinear_arith)
            requires
                a == c,
        ;
    }
}

/// The vertices of a proper triangle are pairwise distinct.
pub proof fn lemma_proper_distinct(tri: IntTriangle)
    requires
        tri.is_proper(),
    ensures
        tri.vertices@[0] != tri.vertices@[1],
        tri.vertices@[1] != tri.vertices@[2],
        tri.vertices@[0] != tri.vertices@[2],
{
    lemma_nonzero_area_distinct(
        tri.vertices@[0].point,
        tri.vertices@[1].point,
        tri.vertices@[2].point,
    );
}


/// Splitting the quadrilateral `a, b, p, c` along either diagonal gives the
/// same total signed area.
pub proof fn lemma_diagonal_swap_area(a: IntPoint, b: IntPoint, c: IntPoint, p: IntPoint)
    ensures
        area_two(a, b, p) + area_two(p, c, a) == area_two(a, b, c) + area_two(p, c, b),
{
    assert(area_two(a, b, p) + area_two(p, c, a) == area_two(a, b, c) + area_two(p, c, b))
        by (nonlinear_arith);
}

/// In a well-formed mesh, the two triangles that a needed flip makes are
/// clockwise.
pub proof fn lemma_flip_orientation(t: Seq<IntTriangle>, i: int, k: int)
    requires
        mesh_wf(t),
        0 <= i < t.len(),
        0 <= k < 3,
        t[i].neighbors@[k] != NIL_INDEX,
        flip_needed(t, i, k),
    ensures
        area_two(
            t[i].vertices@[k].point,
            t[i].vertices@[nxt(k)].point,
            t[far(t, i, k)].vertices@[far_slot(t, i, k)].point,
        ) < 0,
        area_two(
            t[far(t, i, k)].vertices@[far_slot(t, i, k)].point,
            t[i].vertices@[prv(k)].point,
            t[i].vertices@[k].point,
        ) < 0,
{
    let n = far(t, i, k);
    let j = far_slot(t, i, k);
    lemma_named_back(t, i, k);
    assert(t[i].is_proper());
    assert(t[n].is_proper());
    lemma_area_from(t[i], k);
    lemma_area_from(t[n], j);
    lemma_flip_keeps_orientation(
        t[n].vertices@[j].point,
        t[i].vertices@[k].point,
        t[i].vertices@[nxt(k)].point,
        t[i].vertices@[prv(k)].point,
    );
}

/// The neighbor of `i` at slot `k`.
pub open spec fn far(t: Seq<IntTriangle>, i: int, k: int) -> int {
    t[i].neighbors@[k] as int
}

/// The slot at which the neighbor of `i` at slot `k` sees `i`.
pub open spec fn far_slot(t: Seq<IntTriangle>, i: int, k: int) -> int {
    t[far(t, i, k)].slot_of(i as usize)
}

/// A triangle that names `q` as a neighbor is named back by `q`.
pub proof fn lemma_named_back(t: Seq<IntTriangle>, m: int, s: int)
    requires
        mesh_wf(t),
        0 <= m < t.len(),
        0 <= s < 3,
        t[m].neighbors@[s] != NIL_INDEX,
    ensures
        t[m].neighbors@[s] < t.len(),
        t[m].neighbors@[s] != m,
        t[far(t, m, s)].has_neighbor(m as usize),
        t[far(t, m, s)].neighbors@[far_slot(t, m, s)] == m,
        t[far(t, m, s)].vertices@[nxt(far_slot(t, m, s))] == t[m].vertices@[prv(s)],
        t[far(t, m, s)].vertices@[prv(far_slot(t, m, s))] == t[m].vertices@[nxt(s)],
{
    assert(link_ok(t, m, s));
}


/// A triangle with distinct points named by two of its edges: either it is the
/// same edge, or the two edges share the point between them.
pub proof fn lemma_two_edges(tri: IntTriangle, r1: int, r2: int)
    requires
        tri.is_proper(),
        0 <= r1 < 3,
        0 <= r2 < 3,
    ensures
        tri.vertices@[nxt(r1)] == tri.vertices@[nxt(r2)] ==> r1 == r2,
        tri.vertices@[prv(r1)] == tri.vertices@[prv(r2)] ==> r1 == r2,
        tri.vertices@[nxt(r1)] == tri.vertices@[prv(r2)] ==> r1 == nxt(r2),
        tri.vertices@[prv(r1)] == tri.vertices@[nxt(r2)] ==> r2 == nxt(r1),
{
    lemma_proper_distinct(tri);
}

/// The surroundings of the pair formed by `i` and its neighbor `n` at slot
/// `k` when that pair admits a flip: the four outer triangles `x` (across
/// `c a`), `z` (across `a b`), `y` (across `b p`) and `w` (across `p c`) differ
/// from the pair, and those that share a new owner differ from each other.
pub open spec fn flip_frame(t: Seq<IntTriangle>, i: int, k: int) -> bool {
    let n = far(t, i, k);
    let j = far_slot(t, i, k);
    let x = t[i].neighbors@[nxt(k)];
    let z = t[i].neighbors@[prv(k)];
    let y = t[n].neighbors@[nxt(j)];
    let w = t[n].neighbors@[prv(j)];
    &&& 0 <= n < t.len()
    &&& n != i
    &&& 0 <= j < 3
    &&& t[n].neighbors@[j] == i
    &&& t[n].vertices@[nxt(j)] == t[i].vertices@[prv(k)]
    &&& t[n].vertices@[prv(j)] == t[i].vertices@[nxt(k)]
    &&& x != NIL_INDEX ==> x < t.len() && x != i && x != n && x != y && x != w
        && t[x as int].has_neighbor(i as usize) && !t[x as int].has_neighbor(n as usize)
    &&& y != NIL_INDEX ==> y < t.len() && y != i && y != n && y != z
        && t[y as int].has_neighbor(n as usize) && !t[y as int].has_neighbor(i as usize)
    &&& z != NIL_INDEX ==> z < t.len() && z != i && z != n && z != x
    &&& w != NIL_INDEX ==> w < t.len() && w != i && w != n && w != y
}

pub proof fn lemma_flip_frame(t: Seq<IntTriangle>, i: int, k: int)
    requires
        mesh_wf(t),
        0 <= i < t.len(),
        0 <= k < 3,
        t[i].neighbors@[k] != NIL_INDEX,
        flip_needed(t, i, k),
    ensures
        flip_frame(t, i, k),
{
    let n = far(t, i, k);
    let j = far_slot(t, i, k);
    let x = t[i].neighbors@[nxt(k)];
    let z = t[i].neighbors@[prv(k)];
    let y = t[n].neighbors@[nxt(j)];
    let w = t[n].neighbors@[prv(j)];
    let va = t[i].vertices@[k];
    let vb = t[i].vertices@[nxt(k)];
    let vc = t[i].vertices@[prv(k)];
    let vp = t[n].vertices@[j];
    lemma_named_back(t, i, k);
    assert(t[i].is_proper());
    assert(t[n].is_proper());
    assert(t[i].distinct_neighbors());
    assert(t[n].distinct_neighbors());
    lemma_proper_distinct(t[i]);
    lemma_proper_distinct(t[n]);
    lemma_flip_orientation(t, i, k);
    lemma_nonzero_area_distinct(va.point, vb.point, vp.point);
    lemma_area_rotate(va.point, vb.point, vp.point);
    lemma_area_rotate(vp.point, vc.point, va.point);
    if x != NIL_INDEX {
        lemma_named_back(t, i, nxt(k));
        assert(t[x as int].is_proper());
        if t[x as int].has_neighbor(n as usize) {
            let s = t[x as int].slot_of(n as usize);
            lemma_named_back(t, x as int, s);
        }
    }
    if y != NIL_INDEX {
        lemma_named_back(t, n, nxt(j));
        assert(t[y as int].is_proper());
        if t[y as int].has_neighbor(i as usize) {
            let s = t[y as int].slot_of(i as usize);
            lemma_named_back(t, y as int, s);
        }
    }
    if z != NIL_INDEX {
        lemma_named_back(t, i, prv(k));
    }
    if w != NIL_INDEX {
        lemma_named_back(t, n, prv(j));
    }
    if x != NIL_INDEX && x == y {
        lemma_two_edges(t[x as int], far_slot(t, i, nxt(k)), far_slot(t, n, nxt(j)));
    }
    if y != NIL_INDEX && y == z {
        let sy = far_slot(t, n, nxt(j));
        lemma_two_edges(t[y as int], sy, far_slot(t, i, prv(k)));
        lemma_area_from(t[y as int], sy);
    }
    if x != NIL_INDEX && x == w {
        let sx = far_slot(t, i, nxt(k));
        lemma_two_edges(t[x as int], sx, far_slot(t, n, prv(j)));
        lemma_area_from(t[x as int], sx);
    }
}


/// After the flip, a triangle other than the pair and the two relinked ones
/// still has a correct link at each slot.
proof fn lemma_flip_link_other(t: Seq<IntTriangle>, t2: Seq<IntTriangle>, i: int, k: int, m: int, s: int)
    requires
        mesh_wf(t),
        0 <= i < t.len(),
        0 <= k < 3,
        flip_frame(t, i, k),
        is_flip_of(t, t2, i, k),
        0 <= m < t.len(),
        0 <= s < 3,
        m != i,
        m != far(t, i, k),
        t2[m].neighbors@[s] == t[m].neighbors@[s],
        t2[m].vertices == t[m].vertices,
        t[m].neighbors@[s] != i,
        t[m].neighbors@[s] != far(t, i, k),
    ensures
        link_ok(t2, m, s),
{
    let n = far(t, i, k);
    let q = t[m].neighbors@[s];
    let x = t[i].neighbors@[nxt(k)];
    let y = t[n].neighbors@[nxt(far_slot(t, i, k))];
    assert(link_ok(t, m, s));
    if q != NIL_INDEX {
        if q == x {
            assert(relinked(t2[q as int], t[q as int], i as usize, n as usize));
        } else if q == y {
            assert(relinked(t2[q as int], t[q as int], n as usize, i as usize));
        } else {
            assert(t2[q as int] == t[q as int]);
        }
    }
}



/// In an array placed from slot `j`, a value found only at slot `j` is found
/// there first.
pub proof fn lemma_slot_of_placed(tri: IntTriangle, j: int, x0: usize, x1: usize, x2: usize)
    requires
        0 <= j < 3,
        placed(tri.neighbors, j, x0, x1, x2),
        x0 != x1,
        x0 != x2,
    ensures
        tri.slot_of(x0) == j,
{
}

/// After the flip, the two slots whose neighbor changed owner are correct.
proof fn lemma_flip_link_moved(t: Seq<IntTriangle>, t2: Seq<IntTriangle>, i: int, k: int)
    requires
        mesh_wf(t),
        0 <= i < t.len(),
        0 <= k < 3,
        flip_frame(t, i, k),
        is_flip_of(t, t2, i, k),
    ensures
        t[i].neighbors@[nxt(k)] != NIL_INDEX ==> link_ok(
            t2,
            t[i].neighbors@[nxt(k)] as int,
            t[t[i].neighbors@[nxt(k)] as int].slot_of(i as usize),
        ),
        t[far(t, i, k)].neighbors@[nxt(far_slot(t, i, k))] != NIL_INDEX ==> link_ok(
            t2,
            t[far(t, i, k)].neighbors@[nxt(far_slot(t, i, k))] as int,
            t[t[far(t, i, k)].neighbors@[nxt(far_slot(t, i, k))] as int].slot_of(
                far(t, i, k) as usize,
            ),
        ),
{
    let n = far(t, i, k);
    let j = far_slot(t, i, k);
    let x = t[i].neighbors@[nxt(k)];
    let z = t[i].neighbors@[prv(k)];
    let y = t[n].neighbors@[nxt(j)];
    let w = t[n].neighbors@[prv(j)];
    if x != NIL_INDEX {
        assert(link_ok(t, i, nxt(k)));
        assert(relinked(t2[x as int], t[x as int], i as usize, n as usize));
        lemma_slot_of_placed(t2[n], j, x, i as usize, w);
    }
    if y != NIL_INDEX {
        assert(link_ok(t, n, nxt(j)));
        assert(relinked(t2[y as int], t[y as int], n as usize, i as usize));
        lemma_slot_of_placed(t2[i], k, y, n as usize, z);
    }
}

/// After the flip, every slot of the two flipped triangles is correct.
proof fn lemma_flip_link_pair(t: Seq<IntTriangle>, t2: Seq<IntTriangle>, i: int, k: int, s: int)
    requires
        mesh_wf(t),
        0 <= i < t.len(),
        0 <= k < 3,
        flip_frame(t, i, k),
        is_flip_of(t, t2, i, k),
        0 <= s < 3,
    ensures
        link_ok(t2, i, s),
        link_ok(t2, far(t, i, k), s),
{
    let n = far(t, i, k);
    let j = far_slot(t, i, k);
    let x = t[i].neighbors@[nxt(k)];
    let z = t[i].neighbors@[prv(k)];
    let y = t[n].neighbors@[nxt(j)];
    let w = t[n].neighbors@[prv(j)];
    assert(link_ok(t, i, k));
    if s == k {
        if y != NIL_INDEX {
            assert(link_ok(t, n, nxt(j)));
            assert(relinked(t2[y as int], t[y as int], n as usize, i as usize));
            assert(t[y as int].distinct_neighbors());
        }
    } else if s == nxt(k) {
        lemma_slot_of_placed(t2[n], nxt(j), i as usize, w, x);
    } else {
        if z != NIL_INDEX {
            assert(link_ok(t, i, prv(k)));
            assert(t2[z as int] == t[z as int]);
        }
    }
    if s == j {
        if x != NIL_INDEX {
            assert(link_ok(t, i, nxt(k)));
            assert(relinked(t2[x as int], t[x as int], i as usize, n as usize));
            assert(t[x as int].distinct_neighbors());
        }
    } else if s == nxt(j) {
        lemma_slot_of_placed(t2[i], nxt(k), n as usize, z, y);
    } else {
        if w != NIL_INDEX {
            assert(link_ok(t, n, prv(j)));
            assert(t2[w as int] == t[w as int]);
        }
    }
}

/// After the flip every slot of every triangle has a correct link.
proof fn lemma_flip_link(t: Seq<IntTriangle>, t2: Seq<IntTriangle>, i: int, k: int, m: int, s: int)
    requires
        mesh_wf(t),
        0 <= i < t.len(),
        0 <= k < 3,
        flip_frame(t, i, k),
        is_flip_of(t, t2, i, k),
        0 <= m < t.len(),
        0 <= s < 3,
    ensures
        link_ok(t2, m, s),
{
    let n = far(t, i, k);
    let j = far_slot(t, i, k);
    let x = t[i].neighbors@[nxt(k)];
    let z = t[i].neighbors@[prv(k)];
    let y = t[n].neighbors@[nxt(j)];
    let w = t[n].neighbors@[prv(j)];
    if m == i || m == n {
        lemma_flip_link_pair(t, t2, i, k, s);
    } else if x != NIL_INDEX && m == x {
        assert(t[x as int].distinct_neighbors());
        assert(relinked(t2[x as int], t[x as int], i as usize, n as usize));
        if s == t[x as int].slot_of(i as usize) {
            lemma_flip_link_moved(t, t2, i, k);
        } else {
            lemma_flip_link_other(t, t2, i, k, m, s);
        }
    } else if y != NIL_INDEX && m == y {
        assert(t[y as int].distinct_neighbors());
        assert(relinked(t2[y as int], t[y as int], n as usize, i as usize));
        if s == t[y as int].slot_of(n as usize) {
            lemma_flip_link_moved(t, t2, i, k);
        } else {
            lemma_flip_link_other(t, t2, i, k, m, s);
        }
    } else {
        assert(t2[m] == t[m]);
        let q = t[m].neighbors@[s];
        if q == i {
            lemma_named_back(t, m, s);
            assert(t[i].distinct_neighbors());
            assert(m == z);
            assert(link_ok(t, i, prv(k)));
            lemma_slot_of_placed(t2[i], prv(k), z, y, n as usize);
        } else if q == n {
            lemma_named_back(t, m, s);
            assert(t[n].distinct_neighbors());
            assert(m == w);
            assert(link_ok(t, n, prv(j)));
            lemma_slot_of_placed(t2[n], prv(j), w, x, i as usize);
        } else {
            lemma_flip_link_other(t, t2, i, k, m, s);
        }
    }
}


/// The diagonal swap of a pair that needs it keeps the mesh invariant and the
/// total signed area.
pub proof fn lemma_flip_wf(t: Seq<IntTriangle>, t2: Seq<IntTriangle>, i: int, k: int)
    requires
        mesh_wf(t),
        0 <= i < t.len(),
        0 <= k < 3,
        t[i].neighbors@[k] != NIL_INDEX,
        flip_needed(t, i, k),
        is_flip_of(t, t2, i, k),
    ensures
        mesh_wf(t2),
        area_sum(t2) == area_sum(t),
{
    lemma_flip_frame(t, i, k);
    let n = far(t, i, k);
    let j = far_slot(t, i, k);
    let x = t[i].neighbors@[nxt(k)];
    let z = t[i].neighbors@[prv(k)];
    let y = t[n].neighbors@[nxt(j)];
    let w = t[n].neighbors@[prv(j)];
    let va = t[i].vertices@[k];
    let vb = t[i].vertices@[nxt(k)];
    let vc = t[i].vertices@[prv(k)];
    let vp = t[n].vertices@[j];
    assert(t[i].is_proper());
    assert(t[n].is_proper());
    lemma_area_from(t[i], k);
    lemma_area_from(t[n], j);
    lemma_area_from(t2[i], k);
    lemma_area_from(t2[n], j);
    lemma_flip_orientation(t, i, k);
    assert forall|m: int, s: int| 0 <= m < t2.len() && 0 <= s < 3 implies #[trigger] link_ok(
        t2,
        m,
        s,
    ) by {
        lemma_flip_link(t, t2, i, k, m, s);
    }
    assert forall|m: int| 0 <= m < t2.len() implies #[trigger] t2[m].is_proper() by {
        if m != i && m != n {
            assert(t[m].is_proper());
            if x != NIL_INDEX && m == x {
                assert(relinked(t2[x as int], t[x as int], i as usize, n as usize));
            } else if y != NIL_INDEX && m == y {
                assert(relinked(t2[y as int], t[y as int], n as usize, i as usize));
            } else {
                assert(t2[m] == t[m]);
            }
        }
    }
    assert forall|m: int| 0 <= m < t2.len() implies #[trigger] t2[m].distinct_neighbors() by {
        if m != i && m != n {
            assert(t[m].distinct_neighbors());
            if x != NIL_INDEX && m == x {
                assert(relinked(t2[x as int], t[x as int], i as usize, n as usize));
            } else if y != NIL_INDEX && m == y {
                assert(relinked(t2[y as int], t[y as int], n as usize, i as usize));
            } else {
                assert(t2[m] == t[m]);
            }
        } else {
            assert(t[i].distinct_neighbors());
            assert(t[n].distinct_neighbors());
        }
    }
    // area: rebuild t2 from t by updates
    lemma_diagonal_swap_area(va.point, vb.point, vc.point, vp.point);
    let t_a = t.update(i, t2[i]);
    let t_b = t_a.update(n, t2[n]);
    let t_c = if x != NIL_INDEX {
        t_b.update(x as int, t2[x as int])
    } else {
        t_b
    };
    let t_d = if y != NIL_INDEX {
        t_c.update(y as int, t2[y as int])
    } else {
        t_c
    };
    lemma_area_sum_update(t, i, t2[i], t.len() as int);
    lemma_area_sum_update(t_a, n, t2[n], t.len() as int);
    if x != NIL_INDEX {
        assert(relinked(t2[x as int], t[x as int], i as usize, n as usize));
        lemma_area_sum_update(t_b, x as int, t2[x as int], t.len() as int);
    }
    if y != NIL_INDEX {
        assert(relinked(t2[y as int], t[y as int], n as usize, i as usize));
        lemma_area_sum_update(t_c, y as int, t2[y as int], t.len() as int);
    }
    assert(t_d =~= t2);
}


/// Vertex `s` of triangle `m` names a point of `points` by its index and
/// carries that point.
pub open spec fn vertex_ref_ok(t: Seq<IntTriangle>, points: Seq<IntPoint>, m: int, s: int) -> bool {
    let v = t[m].vertices@[s];
    v.index < points.len() && points[v.index as int] == v.point
}

/// Every vertex names its point correctly.
pub open spec fn refs_ok(t: Seq<IntTriangle>, points: Seq<IntPoint>) -> bool {
    forall|m: int, s: int| 0 <= m < t.len() && 0 <= s < 3 ==> #[trigger] vertex_ref_ok(t, points, m, s)
}

/// A flip moves vertices around but makes none.
pub proof fn lemma_flip_refs(t: Seq<IntTriangle>, t2: Seq<IntTriangle>, i: int, k: int, points: Seq<IntPoint>)
    requires
        mesh_wf(t),
        0 <= i < t.len(),
        0 <= k < 3,
        t[i].neighbors@[k] != NIL_INDEX,
        flip_needed(t, i, k),
        is_flip_of(t, t2, i, k),
        refs_ok(t, points),
    ensures
        refs_ok(t2, points),
{
    lemma_flip_frame(t, i, k);
    let n = far(t, i, k);
    let j = far_slot(t, i, k);
    let x = t[i].neighbors@[nxt(k)];
    let y = t[n].neighbors@[nxt(j)];
    assert forall|m: int, s: int| 0 <= m < t2.len() && 0 <= s < 3 implies #[trigger] vertex_ref_ok(
        t2,
        points,
        m,
        s,
    ) by {
        assert(vertex_ref_ok(t, points, i, k));
        assert(vertex_ref_ok(t, points, n, j));
        assert(vertex_ref_ok(t, points, m, s));
        if m == i || m == n {
        } else if x != NIL_INDEX && m == x {
            assert(relinked(t2[x as int], t[x as int], i as usize, n as usize));
        } else if y != NIL_INDEX && m == y {
            assert(relinked(t2[y as int], t[y as int], n as usize, i as usize));
        } else {
            assert(t2[m] == t[m]);
        }
    }
}


/// Adjacency: in a well-formed mesh (as refinement leaves it), the neighbor
/// `n` of triangle `i` at slot `k` names `i` at exactly one slot `r`, and at
/// that slot it sees the same edge with its ends swapped.
pub proof fn lemma_adjacency(t: Seq<IntTriangle>, i: int, k: int)
    requires
        mesh_wf(t),
        0 <= i < t.len(),
        0 <= k < 3,
        t[i].neighbors@[k] != NIL_INDEX,
    ensures
        ({
            let n = t[i].neighbors@[k] as int;
            let r = t[n].slot_of(i as usize);
            &&& 0 <= n < t.len()
            &&& 0 <= r < 3
            &&& t[n].neighbors@[r] == i
            &&& forall|r2: int| 0 <= r2 < 3 && r2 != r ==> t[n].neighbors@[r2] != i
            &&& t[n].vertices@[nxt(r)] == t[i].vertices@[prv(k)]
            &&& t[n].vertices@[prv(r)] == t[i].vertices@[nxt(k)]
        }),
{
    lemma_named_back(t, i, k);
    let n = t[i].neighbors@[k] as int;
    assert(t[n].distinct_neighbors());
}

/// Delaunay criterion: in a refined mesh every pair of adjacent triangles
/// passes the angle-sum test, with the apex of the neighbor across the edge
/// `b c` of the triangle `a, b, c` as the test point.
pub proof fn lemma_refined_pairs_pass(t: Seq<IntTriangle>, i: int, k: int)
    requires
        mesh_delaunay(t),
        0 <= i < t.len(),
        0 <= k < 3,
        t[i].neighbors@[k] != NIL_INDEX,
    ensures
        flip_not_required(
            t[far(t, i, k)].vertices@[far_slot(t, i, k)].point,
            t[i].vertices@[k].point,
            t[i].vertices@[nxt(k)].point,
            t[i].vertices@[prv(k)].point,
        ),
{
    assert(locally_delaunay(t, i));
    assert(!flip_needed(t, i, k));
}


/// The height of `x` on the paraboloid `z = x^2 + y^2`.
pub open spec fn lift(x: IntPoint) -> int {
    x.x * x.x + x.y * x.y
}

/// Three times the signed volume under the triangle `a, b, c` lifted onto the
/// paraboloid, scaled by two: its doubled area times the sum of the heights.
pub open spec fn lifted_volume(a: IntPoint, b: IntPoint, c: IntPoint) -> int {
    area_two(a, b, c) * (lift(a) + lift(b) + lift(c))
}

proof fn lemma_spread(x: int, u: int, v: int, w: int)
    ensures
        x * (u + v + w) == u * x + v * x + w * x,
{
    assert(x * (u + v + w) == u * x + v * x + w * x) by (nonlinear_arith);
}

proof fn lemma_scaled_zero(f: int, a1: int, a2: int, a3: int, a4: int)
    requires
        a3 + a2 == a4 + a1,
    ensures
        f * a3 + f * a2 - f * a4 - f * a1 == 0,
{
    assert(f * a3 + f * a2 - f * a4 - f * a1 == f * (a3 + a2 - a4 - a1)) by (nonlinear_arith);
    assert(f * (a3 + a2 - a4 - a1) == 0) by (nonlinear_arith)
        requires
            a3 + a2 - a4 - a1 == 0,
    ;
}

proof fn lemma_swap_volume_cofactors(a1: int, a2: int, a3: int, a4: int, fa: int, fb: int, fc: int, fp: int)
    requires
        a3 + a2 == a4 + a1,
    ensures
        a3 * (fa + fb + fp) + a2 * (fp + fc + fa) - a4 * (fa + fb + fc) - a1 * (fp + fc + fb) == fa * a1 - fb
            * a2 - fc * a3 + fp * a4,
{
    lemma_spread(a3, fa, fb, fp);
    lemma_spread(a2, fp, fc, fa);
    lemma_spread(a4, fa, fb, fc);
    lemma_spread(a1, fp, fc, fb);
    lemma_scaled_zero(fa, a1, a2, a3, a4);
    lemma_scaled_zero(fb, a1, a2, a3, a4);
    lemma_scaled_zero(fc, a1, a2, a3, a4);
    lemma_scaled_zero(fp, a1, a2, a3, a4);
}

proof fn lemma_cofactors_shift(
    fa: int,
    fb: int,
    fc: int,
    fp: int,
    ga: int,
    gc: int,
    gp: int,
    qa: int,
    qc: int,
    qp: int,
    a1: int,
    a2: int,
    a3: int,
    a4: int,
)
    requires
        fa == fb + 2 * ga + qa,
        fc == fb + 2 * gc + qc,
        fp == fb + 2 * gp + qp,
        a2 == a4 + a1 - a3,
    ensures
        fa * a1 - fb * a2 - fc * a3 + fp * a4 == 2 * (ga * a1 - gc * a3 + gp * a4) + (qa * a1 - qc * a3 + qp * a4),
{
    assert(fa * a1 - fb * a2 - fc * a3 + fp * a4 == 2 * (ga * a1 - gc * a3 + gp * a4) + (qa * a1 - qc * a3 + qp
        * a4)) by (nonlinear_arith)
        requires
            fa == fb + 2 * ga + qa,
            fc == fb + 2 * gc + qc,
            fp == fb + 2 * gp + qp,
            a2 == a4 + a1 - a3,
    ;
}

proof fn lemma_lift_shift(x: IntPoint, b: IntPoint)
    ensures
        lift(x) == lift(b) + 2 * (b.x * (x.x - b.x) + b.y * (x.y - b.y)) + ((x.x - b.x) * (x.x - b.x) + (x.y
            - b.y) * (x.y - b.y)),
{
    assert(lift(x) == lift(b) + 2 * (b.x * (x.x - b.x) + b.y * (x.y - b.y)) + ((x.x - b.x) * (x.x - b.x) + (x.y
        - b.y) * (x.y - b.y))) by (nonlinear_arith);
}

/// `a (p x c) + c (a x p) + p (c x a) == 0`, one coordinate at a time.
proof fn lemma_cross_sum(a1: int, c1: int, p1: int, x: int, y: int, k: int, a2: int, c2: int, p2: int)
    requires
        x == p1 * c2 - p2 * c1,
        y == a1 * p2 - a2 * p1,
        k == c1 * a2 - c2 * a1,
    ensures
        a1 * x + c1 * y + p1 * k == 0,
{
    assert(a1 * x == a1 * (p1 * c2) - a1 * (p2 * c1)) by (nonlinear_arith)
        requires
            x == p1 * c2 - p2 * c1,
    ;
    assert(c1 * y == c1 * (a1 * p2) - c1 * (a2 * p1)) by (nonlinear_arith)
        requires
            y == a1 * p2 - a2 * p1,
    ;
    assert(p1 * k == p1 * (c1 * a2) - p1 * (c2 * a1)) by (nonlinear_arith)
        requires
            k == c1 * a2 - c2 * a1,
    ;
    assert(a1 * (p1 * c2) == p1 * (c2 * a1)) by (nonlinear_arith);
    assert(a1 * (p2 * c1) == c1 * (a1 * p2)) by (nonlinear_arith);
    assert(c1 * (a2 * p1) == p1 * (c1 * a2)) by (nonlinear_arith);
}

proof fn lemma_split_product(g: int, bx: int, by: int, u: int, v: int, x: int)
    requires
        g == bx * u + by * v,
    ensures
        g * x == bx * (u * x) + by * (v * x),
{
    assert(g * x == bx * (u * x) + by * (v * x)) by (nonlinear_arith)
        requires
            g == bx * u + by * v,
    ;
}

proof fn lemma_scale_sum_zero(bx: int, u: int, v: int, w: int)
    requires
        u + v + w == 0,
    ensures
        bx * u + bx * v + bx * w == 0,
{
    assert(bx * u + bx * v + bx * w == bx * (u + v + w)) by (nonlinear_arith);
    assert(bx * (u + v + w) == 0) by (nonlinear_arith)
        requires
            u + v + w == 0,
    ;
}

proof fn lemma_linear_zero(bx: int, by: int, ga: int, gc: int, gp: int, a1: int, a2: int, c1: int, c2: int, p1: int, p2: int, x: int, y: int, k: int)
    requires
        ga == bx * a1 + by * a2,
        gc == bx * c1 + by * c2,
        gp == bx * p1 + by * p2,
        a1 * x + c1 * y + p1 * k == 0,
        a2 * x + c2 * y + p2 * k == 0,
    ensures
        ga * (-x) - gc * y + gp * (-k) == 0,
{
    lemma_split_product(ga, bx, by, a1, a2, x);
    lemma_split_product(gc, bx, by, c1, c2, y);
    lemma_split_product(gp, bx, by, p1, p2, k);
    lemma_scale_sum_zero(bx, a1 * x, c1 * y, p1 * k);
    lemma_scale_sum_zero(by, a2 * x, c2 * y, p2 * k);
    assert(ga * (-x) - gc * y + gp * (-k) == -(ga * x + gc * y + gp * k)) by (nonlinear_arith);
}

/// For a pair of clockwise triangles, swapping the diagonal raises the total
/// lifted volume exactly when the pair fails the angle-sum test: the change
/// is minus the angle-sum quantity.
pub proof fn lemma_swap_volume_change(p: IntPoint, a: IntPoint, b: IntPoint, c: IntPoint)
    requires
        area_two(a, b, c) < 0,
        area_two(p, c, b) < 0,
    ensures
        !flip_not_required(p, a, b, c) <==> lifted_volume(a, b, p) + lifted_volume(p, c, a) > lifted_volume(a, b, c)
            + lifted_volume(p, c, b),
{
    let (a1, a2) = (a.x - b.x, a.y - b.y);
    let (c1, c2) = (c.x - b.x, c.y - b.y);
    let (p1, p2) = (p.x - b.x, p.y - b.y);
    let x = p1 * c2 - p2 * c1;
    let y = a1 * p2 - a2 * p1;
    let k = c1 * a2 - c2 * a1;
    lemma_test_sign(p, a, b, c);
    // the four doubled areas in coordinates relative to `b`
    assert(area_two(p, c, b) == -x) by (nonlinear_arith)
        requires
            x == p1 * c2 - p2 * c1,
            c1 == c.x - b.x,
            c2 == c.y - b.y,
            p1 == p.x - b.x,
            p2 == p.y - b.y,
    ;
    assert(area_two(a, b, p) == y) by (nonlinear_arith)
        requires
            y == a1 * p2 - a2 * p1,
            a1 == a.x - b.x,
            a2 == a.y - b.y,
            p1 == p.x - b.x,
            p2 == p.y - b.y,
    ;
    assert(area_two(a, b, c) == -k) by (nonlinear_arith)
        requires
            k == c1 * a2 - c2 * a1,
            a1 == a.x - b.x,
            a2 == a.y - b.y,
            c1 == c.x - b.x,
            c2 == c.y - b.y,
    ;
    lemma_diagonal_swap_area(a, b, c, p);
    lemma_swap_volume_cofactors(
        area_two(p, c, b),
        area_two(p, c, a),
        area_two(a, b, p),
        area_two(a, b, c),
        lift(a),
        lift(b),
        lift(c),
        lift(p),
    );
    lemma_lift_shift(a, b);
    lemma_lift_shift(c, b);
    lemma_lift_shift(p, b);
    let ga = b.x * a1 + b.y * a2;
    let gc = b.x * c1 + b.y * c2;
    let gp = b.x * p1 + b.y * p2;
    let qa = a1 * a1 + a2 * a2;
    let qc = c1 * c1 + c2 * c2;
    let qp = p1 * p1 + p2 * p2;
    lemma_cofactors_shift(
        lift(a),
        lift(b),
        lift(c),
        lift(p),
        ga,
        gc,
        gp,
        qa,
        qc,
        qp,
        area_two(p, c, b),
        area_two(p, c, a),
        area_two(a, b, p),
        area_two(a, b, c),
    );
    lemma_cross_sum(a1, c1, p1, x, y, k, a2, c2, p2);
    lemma_cross_sum(a2, c2, p2, -x, -y, -k, a1, c1, p1);
    assert(a2 * x + c2 * y + p2 * k == -(a2 * (-x) + c2 * (-y) + p2 * (-k))) by (nonlinear_arith);
    lemma_linear_zero(b.x as int, b.y as int, ga, gc, gp, a1, a2, c1, c2, p1, p2, x, y, k);
    assert(qa * (-x) - qc * y + qp * (-k) == -(qa * x + qc * y + qp * k)) by (nonlinear_arith);
}


/// The lifted volume of a mesh triangle.
pub open spec fn triangle_volume(tri: IntTriangle) -> int {
    lifted_volume(tri.vertices@[0].point, tri.vertices@[1].point, tri.vertices@[2].point)
}

/// Sum of the lifted volumes of the first `len` triangles.
pub open spec fn volume_sum_prefix(t: Seq<IntTriangle>, len: int) -> int
    decreases len,
{
    if len <= 0 {
        0
    } else {
        volume_sum_prefix(t, len - 1) + triangle_volume(t[len - 1])
    }
}

/// The total lifted volume: it never exceeds 0 in a well-formed mesh, and
/// every flip raises it.
pub open spec fn volume_sum(t: Seq<IntTriangle>) -> int {
    volume_sum_prefix(t, t.len() as int)
}

proof fn lemma_volume_sum_update(t: Seq<IntTriangle>, m: int, v: IntTriangle, len: int)
    requires
        0 <= m < t.len(),
        0 <= len <= t.len(),
    ensures
        volume_sum_prefix(t.update(m, v), len) == volume_sum_prefix(t, len) + (if m < len {
            triangle_volume(v) - triangle_volume(t[m])
        } else {
            0
        }),
    decreases len,
{
    if len > 0 {
        lemma_volume_sum_update(t, m, v, len - 1);
    }
}

proof fn lemma_volume_from(tri: IntTriangle, k: int)
    requires
        0 <= k < 3,
    ensures
        triangle_volume(tri) == lifted_volume(
            tri.vertices@[k].point,
            tri.vertices@[nxt(k)].point,
            tri.vertices@[prv(k)].point,
        ),
{
    lemma_area_from(tri, k);
}

proof fn lemma_volume_prefix_nonpositive(t: Seq<IntTriangle>, len: int)
    requires
        0 <= len <= t.len(),
        forall|m: int| 0 <= m < t.len() ==> #[trigger] t[m].is_proper(),
    ensures
        volume_sum_prefix(t, len) <= 0,
    decreases len,
{
    if len > 0 {
        lemma_volume_prefix_nonpositive(t, len - 1);
        let tri = t[len - 1];
        assert(tri.is_proper());
        let (a, b, c) = (tri.vertices@[0].point, tri.vertices@[1].point, tri.vertices@[2].point);
        let h = lift(a) + lift(b) + lift(c);
        assert(h >= 0) by (nonlinear_arith)
            requires
                h == a.x * a.x + a.y * a.y + (b.x * b.x + b.y * b.y) + (c.x * c.x + c.y * c.y),
        ;
        assert(area_two(a, b, c) * h <= 0) by (nonlinear_arith)
            requires
                area_two(a, b, c) < 0,
                h >= 0,
        ;
    }
}

/// The total lifted volume of a well-formed mesh is at most 0.
pub proof fn lemma_volume_nonpositive(t: Seq<IntTriangle>)
    requires
        mesh_wf(t),
    ensures
        volume_sum(t) <= 0,
{
    lemma_volume_prefix_nonpositive(t, t.len() as int);
}

/// A flip raises the total lifted volume.
pub proof fn lemma_flip_volume(t: Seq<IntTriangle>, t2: Seq<IntTriangle>, i: int, k: int)
    requires
        mesh_wf(t),
        0 <= i < t.len(),
        0 <= k < 3,
        t[i].neighbors@[k] != NIL_INDEX,
        flip_needed(t, i, k),
        is_flip_of(t, t2, i, k),
    ensures
        volume_sum(t2) > volume_sum(t),
{
    lemma_flip_frame(t, i, k);
    let n = far(t, i, k);
    let j = far_slot(t, i, k);
    let x = t[i].neighbors@[nxt(k)];
    let y = t[n].neighbors@[nxt(j)];
    let va = t[i].vertices@[k];
    let vb = t[i].vertices@[nxt(k)];
    let vc = t[i].vertices@[prv(k)];
    let vp = t[n].vertices@[j];
    assert(t[i].is_proper());
    assert(t[n].is_proper());
    lemma_area_from(t[i], k);
    lemma_area_from(t[n], j);
    lemma_volume_from(t[i], k);
    lemma_volume_from(t[n], j);
    lemma_volume_from(t2[i], k);
    lemma_volume_from(t2[n], j);
    lemma_swap_volume_change(vp.point, va.point, vb.point, vc.point);
    let t_a = t.update(i, t2[i]);
    let t_b = t_a.update(n, t2[n]);
    let t_c = if x != NIL_INDEX {
        t_b.update(x as int, t2[x as int])
    } else {
        t_b
    };
    let t_d = if y != NIL_INDEX {
        t_c.update(y as int, t2[y as int])
    } else {
        t_c
    };
    lemma_volume_sum_update(t, i, t2[i], t.len() as int);
    lemma_volume_sum_update(t_a, n, t2[n], t.len() as int);
    if x != NIL_INDEX {
        assert(relinked(t2[x as int], t[x as int], i as usize, n as usize));
        lemma_volume_sum_update(t_b, x as int, t2[x as int], t.len() as int);
    }
    if y != NIL_INDEX {
        assert(relinked(t2[y as int], t[y as int], n as usize, i as usize));
        lemma_volume_sum_update(t_c, y as int, t2[y as int], t.len() as int);
    }
    assert(t_d =~= t2);
}


/// The angle-sum test of a pair of clockwise triangles gives the same answer
/// from either side of the shared edge.
pub proof fn lemma_test_symmetric(p: IntPoint, a: IntPoint, b: IntPoint, c: IntPoint)
    requires
        area_two(a, b, c) < 0,
        area_two(p, c, b) < 0,
    ensures
        flip_not_required(p, a, b, c) == flip_not_required(a, p, c, b),
{
    lemma_swap_volume_change(p, a, b, c);
    lemma_swap_volume_change(a, p, c, b);
}

/// A pair of adjacent triangles needs a flip seen from one triangle exactly
/// when it needs one seen from the other.
pub proof fn lemma_flip_needed_symmetric(t: Seq<IntTriangle>, m: int, s: int)
    requires
        mesh_wf(t),
        0 <= m < t.len(),
        0 <= s < 3,
        t[m].neighbors@[s] != NIL_INDEX,
    ensures
        flip_needed(t, m, s) == flip_needed(t, far(t, m, s), far_slot(t, m, s)),
{
    let q = far(t, m, s);
    let r = far_slot(t, m, s);
    lemma_named_back(t, m, s);
    assert(t[m].distinct_neighbors());
    assert(t[m].slot_of(q as usize) == s);
    assert(t[m].is_proper());
    assert(t[q].is_proper());
    lemma_area_from(t[m], s);
    lemma_area_from(t[q], r);
    lemma_test_symmetric(
        t[q].vertices@[r].point,
        t[m].vertices@[s].point,
        t[m].vertices@[nxt(s)].point,
        t[m].vertices@[prv(s)].point,
    );
}


/// Every adjacent pair that needs a flip has one of its triangles in `pending`.
pub open spec fn covered(t: Seq<IntTriangle>, pending: Set<int>) -> bool {
    forall|m: int, s: int|
        0 <= m < t.len() && 0 <= s < 3 && t[m].neighbors@[s] != NIL_INDEX && #[trigger] flip_needed(t, m, s)
            ==> pending.contains(m) || pending.contains(t[m].neighbors@[s] as int)
}

/// After a flip, the pairs that need one are those that needed one before, or
/// pairs with one of the two flipped triangles.
pub proof fn lemma_flip_keeps_coverage(t: Seq<IntTriangle>, t2: Seq<IntTriangle>, i: int, k: int, pending: Set<int>)
    requires
        mesh_wf(t),
        0 <= i < t.len(),
        0 <= k < 3,
        t[i].neighbors@[k] != NIL_INDEX,
        flip_needed(t, i, k),
        is_flip_of(t, t2, i, k),
        covered(t, pending),
    ensures
        covered(t2, pending.insert(i).insert(far(t, i, k))),
{
    lemma_flip_frame(t, i, k);
    let n = far(t, i, k);
    let j = far_slot(t, i, k);
    let x = t[i].neighbors@[nxt(k)];
    let y = t[n].neighbors@[nxt(j)];
    let p2 = pending.insert(i).insert(n);
    assert forall|m: int, s: int|
        0 <= m < t2.len() && 0 <= s < 3 && t2[m].neighbors@[s] != NIL_INDEX && #[trigger] flip_needed(t2, m, s)
            implies p2.contains(m) || p2.contains(t2[m].neighbors@[s] as int) by {
        let q = t2[m].neighbors@[s] as int;
        if m != i && m != n && q != i && q != n {
            // the pair is untouched but for relinking, which changes no answer
            assert(t2[m].vertices == t[m].vertices && t2[m].neighbors@[s] == t[m].neighbors@[s]) by {
                if x != NIL_INDEX && m == x {
                    assert(relinked(t2[x as int], t[x as int], i as usize, n as usize));
                } else if y != NIL_INDEX && m == y {
                    assert(relinked(t2[y as int], t[y as int], n as usize, i as usize));
                } else {
                    assert(t2[m] == t[m]);
                }
            }
            assert(link_ok(t, m, s));
            assert(t2[q].vertices == t[q].vertices && t2[q].slot_of(m as usize) == t[q].slot_of(m as usize)) by {
                if x != NIL_INDEX && q == x {
                    assert(relinked(t2[x as int], t[x as int], i as usize, n as usize));
                } else if y != NIL_INDEX && q == y {
                    assert(relinked(t2[y as int], t[y as int], n as usize, i as usize));
                } else {
                    assert(t2[q] == t[q]);
                }
            }
            assert(flip_needed(t, m, s));
        }
    }
}

/// Once triangle `x` passes the test with every neighbor outside `rest`,
/// `x` can leave the pending set.
pub proof fn lemma_fixed_leaves_coverage(t: Seq<IntTriangle>, x: int, rest: Set<int>)
    requires
        mesh_wf(t),
        0 <= x < t.len(),
        covered(t, rest.insert(x)),
        forall|s: int|
            0 <= s < 3 && t[x].neighbors@[s] != NIL_INDEX && !rest.contains(t[x].neighbors@[s] as int)
                ==> !#[trigger] flip_needed(t, x, s),
    ensures
        covered(t, rest),
{
    assert forall|m: int, s: int|
        0 <= m < t.len() && 0 <= s < 3 && t[m].neighbors@[s] != NIL_INDEX && #[trigger] flip_needed(t, m, s)
            implies rest.contains(m) || rest.contains(t[m].neighbors@[s] as int) by {
        let q = t[m].neighbors@[s] as int;
        if q == x && !rest.contains(m) {
            lemma_flip_needed_symmetric(t, m, s);
            lemma_named_back(t, m, s);
            assert(flip_needed(t, x, far_slot(t, m, s)));
        }
    }
}


/// A mesh where no pair needing a flip is left pending is Delaunay.
pub proof fn lemma_covered_by_none(t: Seq<IntTriangle>)
    requires
        covered(t, Set::<int>::empty()),
    ensures
        mesh_delaunay(t),
{
    assert forall|i: int| 0 <= i < t.len() implies #[trigger] locally_delaunay(t, i) by {
        assert forall|s: int| 0 <= s < 3 && t[i].neighbors@[s] != NIL_INDEX implies !#[trigger] flip_needed(t, i, s) by {
            if flip_needed(t, i, s) {
                assert(Set::<int>::empty().contains(i) || Set::<int>::empty().contains(t[i].neighbors@[s] as int));
            }
        }
    }
}


/// The edge of slot `s` of triangle `m`, as the indices of its two ends.
pub open spec fn slot_edge(t: Seq<IntTriangle>, m: int, s: int) -> (int, int) {
    (t[m].vertices@[nxt(s)].index as int, t[m].vertices@[prv(s)].index as int)
}

/// The boundary of the mesh: the edges of the slots that hold `NIL_INDEX`.
pub open spec fn boundary(t: Seq<IntTriangle>) -> Set<(int, int)> {
    Set::new(
        |e: (int, int)|
            exists|m: int, s: int|
                0 <= m < t.len() && 0 <= s < 3 && t[m].neighbors@[s] == NIL_INDEX && #[trigger] slot_edge(t, m, s)
                    == e,
    )
}

/// A flip moves boundary slots between triangles but keeps every boundary
/// edge.
pub proof fn lemma_flip_keeps_boundary(t: Seq<IntTriangle>, t2: Seq<IntTriangle>, i: int, k: int)
    requires
        mesh_wf(t),
        0 <= i < t.len(),
        0 <= k < 3,
        t[i].neighbors@[k] != NIL_INDEX,
        flip_needed(t, i, k),
        is_flip_of(t, t2, i, k),
    ensures
        boundary(t2) == boundary(t),
{
    lemma_flip_frame(t, i, k);
    let n = far(t, i, k);
    let j = far_slot(t, i, k);
    let x = t[i].neighbors@[nxt(k)];
    let y = t[n].neighbors@[nxt(j)];
    assert forall|e: (int, int)| boundary(t2).contains(e) implies boundary(t).contains(e) by {
        let (m, s) = choose|m: int, s: int|
            0 <= m < t2.len() && 0 <= s < 3 && t2[m].neighbors@[s] == NIL_INDEX && #[trigger] slot_edge(t2, m, s) == e;
        if m == i {
            if s == k {
                assert(slot_edge(t, n, nxt(j)) == e);
            } else {
                assert(slot_edge(t, i, prv(k)) == e);
            }
        } else if m == n {
            if s == j {
                assert(slot_edge(t, i, nxt(k)) == e);
            } else {
                assert(slot_edge(t, n, prv(j)) == e);
            }
        } else if x != NIL_INDEX && m == x {
            assert(relinked(t2[x as int], t[x as int], i as usize, n as usize));
            assert(slot_edge(t, m, s) == e);
        } else if y != NIL_INDEX && m == y {
            assert(relinked(t2[y as int], t[y as int], n as usize, i as usize));
            assert(slot_edge(t, m, s) == e);
        } else {
            assert(t2[m] == t[m]);
            assert(slot_edge(t, m, s) == e);
        }
    }
    assert forall|e: (int, int)| boundary(t).contains(e) implies boundary(t2).contains(e) by {
        let (m, s) = choose|m: int, s: int|
            0 <= m < t.len() && 0 <= s < 3 && t[m].neighbors@[s] == NIL_INDEX && #[trigger] slot_edge(t, m, s) == e;
        if m == i {
            if s == nxt(k) {
                assert(slot_edge(t2, n, j) == e);
            } else {
                assert(slot_edge(t2, i, prv(k)) == e);
            }
        } else if m == n {
            if s == nxt(j) {
                assert(slot_edge(t2, i, k) == e);
            } else {
                assert(slot_edge(t2, n, prv(j)) == e);
            }
        } else if x != NIL_INDEX && m == x {
            assert(relinked(t2[x as int], t[x as int], i as usize, n as usize));
            assert(slot_edge(t2, m, s) == e);
        } else if y != NIL_INDEX && m == y {
            assert(relinked(t2[y as int], t[y as int], n as usize, i as usize));
            assert(slot_edge(t2, m, s) == e);
        } else {
            assert(t2[m] == t[m]);
            assert(slot_edge(t2, m, s) == e);
        }
    }
    assert(boundary(t2) =~= boundary(t));
}

} // verus!
