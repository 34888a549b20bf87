use vstd::prelude::*;
use crate::point::{IntPoint, area_two};

verus! {

/// Neighbor value of a triangle edge that lies on the mesh boundary.
pub const NIL_INDEX: usize = usize::MAX;

/// A mesh vertex: its index among the mesh points and the point itself.
#[derive(Clone, Copy, Debug, PartialEq, Eq, Structural)]
pub struct IndexPoint {
    pub index: usize,
    pub point: IntPoint,
}

impl IndexPoint {
    pub fn new(index: usize, point: IntPoint) -> (r: Self)
        ensures
            r.index == index,
            r.point == point,
    {
        IndexPoint { index, point }
    }
}

/// A mesh triangle. Slot `k` of `neighbors` holds the triangle that shares the
/// edge opposite `vertices[k]`, i.e. the edge from `vertices[k + 1]` to
/// `vertices[k + 2]` (indices taken modulo 3), or `NIL_INDEX` on the boundary.
#[derive(Clone, Copy, Debug, PartialEq, Eq)]
pub struct IntTriangle {
    pub vertices: [IndexPoint; 3],
    pub neighbors: [usize; 3],
}

/// The slot after `k`, cyclically.
pub open spec fn nxt(k: int) -> int {
    if k == 2 {
        0
    } else {
        k + 1
    }
}

/// The slot before `k`, cyclically.
pub open spec fn prv(k: int) -> int {
    if k == 0 {
        2
    } else {
        k - 1
    }
}

pub fn next_slot(k: usize) -> (r: usize)
    requires
        k < 3,
    ensures
        r == nxt(k as int),
{
    if k == 2 {
        0
    } else {
        k + 1
    }
}

pub fn prev_slot(k: usize) -> (r: usize)
    requires
        k < 3,
    ensures
        r == prv(k as int),
{
    if k == 0 {
        2
    } else {
        k - 1
    }
}

/// An array of three holding `x0` at slot `k`, then `x1` and `x2` in cyclic order.
pub open spec fn placed<T>(r: [T; 3], k: int, x0: T, x1: T, x2: T) -> bool {
    r@[k] == x0 && r@[nxt(k)] == x1 && r@[prv(k)] == x2
}

pub fn place<T: Copy>(k: usize, x0: T, x1: T, x2: T) -> (r: [T; 3])
    requires
        k < 3,
    ensures
        placed(r, k as int, x0, x1, x2),
{
    if k == 0 {
        [x0, x1, x2]
    } else if k == 1 {
        [x2, x0, x1]
    } else {
        [x1, x2, x0]
    }
}

impl IntTriangle {
    /// The first slot whose neighbor is `n` (slot 2 when none is).
    pub open spec fn slot_of(self, n: usize) -> int {
        if self.neighbors@[0] == n {
            0
        } else if self.neighbors@[1] == n {
            1
        } else {
            2
        }
    }

    pub open spec fn has_neighbor(self, n: usize) -> bool {
        self.neighbors@[0] == n || self.neighbors@[1] == n || self.neighbors@[2] == n
    }

    /// Twice the signed area; negative for a clockwise triangle.
    pub open spec fn area(self) -> int {
        area_two(self.vertices@[0].point, self.vertices@[1].point, self.vertices@[2].point)
    }

    /// Each vertex lies in range and the triangle is strictly clockwise.
    pub open spec fn is_proper(self) -> bool {
        &&& self.vertices@[0].point.in_range()
        &&& self.vertices@[1].point.in_range()
        &&& self.vertices@[2].point.in_range()
        &&& self.area() < 0
    }

    /// No triangle appears in two slots.
    pub open spec fn distinct_neighbors(self) -> bool {
        forall|k1: int, k2: int|
            0 <= k1 < 3 && 0 <= k2 < 3 && k1 != k2 && self.neighbors@[k1] != NIL_INDEX
                ==> self.neighbors@[k1] != self.neighbors@[k2]
    }

    /// The slot of `n`, found as `slot_of` finds it.
    pub fn neighbor_slot(&self, n: usize) -> (r: usize)
        ensures
            r == self.slot_of(n),
    {
        if self.neighbors[0] == n {
            0
        } else if self.neighbors[1] == n {
            1
        } else {
            2
        }
    }

    /// Replaces the neighbor `old_index` by `new_index`, in the first slot that
    /// holds it.
    pub fn update_neighbor(&mut self, old_index: usize, new_index: usize)
        requires
            old(self).has_neighbor(old_index),
        ensures
            final(self).vertices == old(self).vertices,
            final(self).neighbors@ == old(self).neighbors@.update(
                old(self).slot_of(old_index),
                new_index,
            ),
    {
        if self.neighbors[0] == old_index {
            self.neighbors[0] = new_index;
        } else if self.neighbors[1] == old_index {
            self.neighbors[1] = new_index;
        } else {
            self.neighbors[2] = new_index;
        }
    }
}

} // verus!
