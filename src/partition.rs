use vstd::prelude::*;
use crate::point::IntPoint;
use crate::triangle::IntTriangle;
use crate::convex::{convex_path, holds_triangle, marked_area, path_area, points_of_mesh};

verus! {

/// Sum of twice the signed areas of the first `len` triangles that `owner`
/// gives to polygon `q`.
pub open spec fn owned_area(t: Seq<IntTriangle>, owner: Seq<int>, q: int, len: int) -> int
    decreases len,
{
    if len <= 0 {
        0
    } else {
        owned_area(t, owner, q, len - 1) + if owner[len - 1] == q {
            t[len - 1].area()
        } else {
            0
        }
    }
}

/// `owner` gives each triangle exactly one of the polygons, which holds the
/// triangle's corners; each polygon's area is the total area of the triangles
/// it is given.
pub open spec fn assignment(t: Seq<IntTriangle>, polygons: Seq<Vec<IntPoint>>, owner: Seq<int>) -> bool {
    &&& owner.len() == t.len()
    &&& forall|m: int|
        0 <= m < t.len() ==> 0 <= #[trigger] owner[m] < polygons.len() && holds_triangle(polygons[owner[m]]@, t[m])
    &&& forall|q: int|
        0 <= q < polygons.len() ==> path_area(#[trigger] polygons[q]@) == owned_area(t, owner, q, t.len() as int)
}

/// The part of an assignment that holds while polygons are still being made:
/// the marked triangles have their polygon.
pub open spec fn partial_assignment(
    t: Seq<IntTriangle>,
    polygons: Seq<Vec<IntPoint>>,
    owner: Seq<int>,
    marks: Seq<bool>,
) -> bool {
    &&& owner.len() == t.len()
    &&& marks.len() == t.len()
    &&& forall|m: int| 0 <= m < t.len() ==> (#[trigger] marks[m] <==> owner[m] >= 0)
    &&& forall|m: int|
        0 <= m < t.len() && #[trigger] marks[m] ==> owner[m] < polygons.len() && holds_triangle(
            polygons[owner[m]]@,
            t[m],
        )
    &&& forall|q: int|
        0 <= q < polygons.len() ==> path_area(#[trigger] polygons[q]@) == owned_area(t, owner, q, t.len() as int)
    &&& forall|q: int| 0 <= q < polygons.len() ==> convex_path(#[trigger] polygons[q]@)
    &&& forall|q: int| 0 <= q < polygons.len() ==> points_of_mesh(#[trigger] polygons[q]@, t)
}

/// The owners after the triangles newly marked in `v1` go to polygon `q`.
pub open spec fn next_owner(owner: Seq<int>, v0: Seq<bool>, v1: Seq<bool>, q: int) -> Seq<int> {
    Seq::new(owner.len(), |m: int| if v1[m] && !v0[m] { q } else { owner[m] })
}

/// No owner at all.
pub open spec fn no_owner(n: nat) -> Seq<int> {
    Seq::new(n, |m: int| -1int)
}

proof fn lemma_owned_area_same(t: Seq<IntTriangle>, o1: Seq<int>, o2: Seq<int>, q: int, len: int)
    requires
        0 <= len <= o1.len(),
        len <= o2.len(),
        forall|m: int| 0 <= m < len ==> (#[trigger] o1[m] == q) == (o2[m] == q),
    ensures
        owned_area(t, o1, q, len) == owned_area(t, o2, q, len),
    decreases len,
{
    if len > 0 {
        lemma_owned_area_same(t, o1, o2, q, len - 1);
    }
}

proof fn lemma_owned_area_new(t: Seq<IntTriangle>, o: Seq<int>, v0: Seq<bool>, v1: Seq<bool>, q: int, len: int)
    requires
        0 <= len <= o.len(),
        len <= v0.len(),
        len <= v1.len(),
        forall|m: int| 0 <= m < len ==> (#[trigger] o[m] == q) == (v1[m] && !v0[m]),
        forall|m: int| 0 <= m < len && #[trigger] v0[m] ==> v1[m],
    ensures
        owned_area(t, o, q, len) == marked_area(t, v1, len) - marked_area(t, v0, len),
    decreases len,
{
    if len > 0 {
        lemma_owned_area_new(t, o, v0, v1, q, len - 1);
        assert(v0[len - 1] ==> v1[len - 1]);
    }
}

/// Nothing marked, no polygon: the empty assignment.
pub proof fn lemma_start_assignment(t: Seq<IntTriangle>, marks: Seq<bool>)
    requires
        marks.len() == t.len(),
        forall|m: int| 0 <= m < t.len() ==> !#[trigger] marks[m],
    ensures
        partial_assignment(t, Seq::<Vec<IntPoint>>::empty(), no_owner(t.len()), marks),
{
}

/// Appending the polygon made from the newly marked triangles gives them to
/// it and keeps the assignment of the others.
pub proof fn lemma_owner_step(
    t: Seq<IntTriangle>,
    owner0: Seq<int>,
    v0: Seq<bool>,
    v1: Seq<bool>,
    before: Seq<Vec<IntPoint>>,
    path: Vec<IntPoint>,
    after: Seq<Vec<IntPoint>>,
)
    requires
        partial_assignment(t, before, owner0, v0),
        v1.len() == t.len(),
        forall|m: int| 0 <= m < t.len() && #[trigger] v0[m] ==> v1[m],
        forall|m: int| 0 <= m < t.len() && #[trigger] v1[m] && !v0[m] ==> holds_triangle(path@, t[m]),
        path_area(path@) == marked_area(t, v1, t.len() as int) - marked_area(t, v0, t.len() as int),
        convex_path(path@),
        points_of_mesh(path@, t),
        after == before.push(path),
    ensures
        partial_assignment(t, after, next_owner(owner0, v0, v1, before.len() as int), v1),
{
    let n = t.len() as int;
    let rlen = before.len() as int;
    let o2 = next_owner(owner0, v0, v1, rlen);
    assert forall|q: int| 0 <= q < rlen implies owned_area(t, o2, q, n) == owned_area(t, owner0, q, n) by {
        assert forall|m: int| 0 <= m < n implies (#[trigger] o2[m] == q) == (owner0[m] == q) by {
            if v1[m] && !v0[m] {
                assert(owner0[m] < 0);
            }
        }
        lemma_owned_area_same(t, o2, owner0, q, n);
    }
    assert forall|m: int| 0 <= m < n implies (#[trigger] o2[m] == rlen) == (v1[m] && !v0[m]) by {
        if v0[m] {
            assert(owner0[m] < rlen);
        } else {
            assert(owner0[m] < 0);
        }
    }
    lemma_owned_area_new(t, o2, v0, v1, rlen, n);
    assert forall|q: int| 0 <= q < after.len() implies path_area(#[trigger] after[q]@) == owned_area(t, o2, q, n) by {
        if q < rlen {
            assert(after[q] == before[q]);
        }
    }
    assert forall|q: int| 0 <= q < after.len() implies convex_path(#[trigger] after[q]@) by {
        if q < rlen {
            assert(after[q] == before[q]);
        }
    }
    assert forall|q: int| 0 <= q < after.len() implies points_of_mesh(#[trigger] after[q]@, t) by {
        if q < rlen {
            assert(after[q] == before[q]);
        }
    }
    assert forall|m: int| 0 <= m < n implies (#[trigger] v1[m] <==> o2[m] >= 0) by {
        if v0[m] {
            assert(owner0[m] >= 0);
        }
    }
    assert forall|m: int| 0 <= m < n && #[trigger] v1[m] implies o2[m] < after.len() && holds_triangle(
        after[o2[m]]@,
        t[m],
    ) by {
        if v0[m] {
            assert(after[owner0[m]] == before[owner0[m]]);
        }
    }
}

/// When every triangle is marked, the partial assignment is an assignment.
pub proof fn lemma_full_assignment(t: Seq<IntTriangle>, polygons: Seq<Vec<IntPoint>>, owner: Seq<int>, marks: Seq<bool>)
    requires
        partial_assignment(t, polygons, owner, marks),
        forall|m: int| 0 <= m < t.len() ==> #[trigger] marks[m],
    ensures
        assignment(t, polygons, owner),
{
    assert forall|m: int| 0 <= m < t.len() implies 0 <= #[trigger] owner[m] < polygons.len() && holds_triangle(
        polygons[owner[m]]@,
        t[m],
    ) by {
        assert(marks[m]);
    }
}

} // verus!
