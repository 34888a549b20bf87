use vstd::prelude::*;
use crate::point::{IntPoint, area_two, area_two_point};
use crate::triangle::{IntTriangle, NIL_INDEX, nxt, prv, next_slot, prev_slot};
use crate::partition::{assignment, lemma_full_assignment, lemma_owner_step, lemma_start_assignment, next_owner, no_owner, partial_assignment};
use crate::mesh::{area_sum, area_sum_prefix, link_ok, mesh_wf, lemma_area_from, lemma_area_rotate};

verus! {

/// The position after `q` on a cycle of length `len`.
pub open spec fn cnext(q: int, len: int) -> int {
    if q + 1 >= len {
        0
    } else {
        q + 1
    }
}

/// The position before `q` on a cycle of length `len`.
pub open spec fn cprev(q: int, len: int) -> int {
    if q <= 0 {
        len - 1
    } else {
        q - 1
    }
}

/// A closed path whose every vertex turns the way the mesh triangles do,
/// strictly: a strictly convex polygon with the mesh's winding.
pub open spec fn convex_path(path: Seq<IntPoint>) -> bool {
    &&& path.len() >= 3
    &&& forall|q: int| 0 <= q < path.len() ==> #[trigger] turns_inward(path, q)
}

/// The closed path turns at its vertex `q` the way the mesh triangles do.
pub open spec fn turns_inward(path: Seq<IntPoint>, q: int) -> bool {
    area_two(path[cprev(q, path.len() as int)], path[q], path[cnext(q, path.len() as int)]) < 0
}

/// The shoelace term of the boundary edge from `u` to `v`.
pub open spec fn seg(u: IntPoint, v: IntPoint) -> int {
    v.x * u.y - u.x * v.y
}

/// Sum of the shoelace terms of the first `n - 1` edges of the open path `s`.
pub open spec fn chain(s: Seq<IntPoint>, n: int) -> int
    decreases n,
{
    if n <= 1 {
        0
    } else {
        chain(s, n - 1) + seg(s[n - 2], s[n - 1])
    }
}

/// Twice the signed area of the closed path `s`, in the sign convention of
/// `area_two`.
pub open spec fn path_area(s: Seq<IntPoint>) -> int {
    if s.len() == 0 {
        0
    } else {
        chain(s, s.len() as int) + seg(s[s.len() - 1], s[0])
    }
}

proof fn lemma_chain_prefix(s: Seq<IntPoint>, s2: Seq<IntPoint>, n: int)
    requires
        0 <= n <= s.len(),
        n <= s2.len(),
        forall|q: int| 0 <= q < n ==> s2[q] == s[q],
    ensures
        chain(s2, n) == chain(s, n),
    decreases n,
{
    if n > 1 {
        lemma_chain_prefix(s, s2, n - 1);
    }
}

/// Inserting `x` at position `i` replaces the edge before position `i` by
/// the two edges through `x`.
proof fn lemma_chain_insert(s: Seq<IntPoint>, i: int, x: IntPoint, n: int)
    requires
        1 <= i < s.len(),
        i + 2 <= n <= s.len() + 1,
    ensures
        chain(s.insert(i, x), n) == chain(s, n - 1) - seg(s[i - 1], s[i]) + seg(s[i - 1], x) + seg(x, s[i]),
    decreases n,
{
    let s2 = s.insert(i, x);
    if n == i + 2 {
        lemma_chain_prefix(s, s2, i);
        assert(chain(s2, i + 1) == chain(s2, i) + seg(s[i - 1], x));
        assert(chain(s, i + 1) == chain(s, i) + seg(s[i - 1], s[i]));
    } else {
        lemma_chain_insert(s, i, x, n - 1);
    }
}

/// The area of a closed path after `x` is inserted after position `q`.
proof fn lemma_path_area_insert(s: Seq<IntPoint>, q: int, x: IntPoint)
    requires
        0 <= q < s.len(),
        s.len() >= 2,
    ensures
        path_area(s.insert(q + 1, x)) == path_area(s) - seg(s[q], s[cnext(q, s.len() as int)]) + seg(s[q], x)
            + seg(x, s[cnext(q, s.len() as int)]),
{
    let s2 = s.insert(q + 1, x);
    let len = s.len() as int;
    if q + 1 < len {
        lemma_chain_insert(s, q + 1, x, len + 1);
        assert(s2[len] == s[len - 1]);
        assert(s2[0] == s[0]);
    } else {
        lemma_chain_prefix(s, s2, len);
        assert(s2[len] == x);
        assert(s2[len - 1] == s[len - 1]);
        assert(s2[0] == s[0]);
    }
}

/// Replacing the edge `u v` by the edges `u x` and `x v` adds the area of the
/// triangle `u, x, v`.
proof fn lemma_seg_triangle(u: IntPoint, x: IntPoint, v: IntPoint)
    ensures
        seg(u, x) + seg(x, v) - seg(u, v) == area_two(u, x, v),
        seg(u, x) + seg(x, v) + seg(v, u) == area_two(u, x, v),
{
    lemma_shoelace_triangle(u.x as int, u.y as int, x.x as int, x.y as int, v.x as int, v.y as int);
}

proof fn lemma_shoelace_triangle(ux: int, uy: int, xx: int, xy: int, vx: int, vy: int)
    ensures
        (xx * uy - ux * xy) + (vx * xy - xx * vy) - (vx * uy - ux * vy) == (vx - ux) * (xy - uy) - (vy - uy)
            * (xx - ux),
        (xx * uy - ux * xy) + (vx * xy - xx * vy) + (ux * vy - vx * uy) == (vx - ux) * (xy - uy) - (vy - uy)
            * (xx - ux),
{
    assert((vx - ux) * (xy - uy) == vx * xy - vx * uy - ux * xy + ux * uy) by (nonlinear_arith);
    assert((vy - uy) * (xx - ux) == vy * xx - vy * ux - uy * xx + uy * ux) by (nonlinear_arith);
    assert(vy * xx == xx * vy && vy * ux == ux * vy && uy * xx == xx * uy && uy * ux == ux * uy)
        by (nonlinear_arith);
}

/// The three vertex points of `tri` lie on the path.
pub open spec fn holds_triangle(path: Seq<IntPoint>, tri: IntTriangle) -> bool {
    forall|s: int| 0 <= s < 3 ==> path.contains(#[trigger] tri.vertices@[s].point)
}

/// The three vertex points of `tri` lie on one of the polygons.
pub open spec fn on_some_polygon(polygons: Seq<Vec<IntPoint>>, tri: IntTriangle) -> bool {
    exists|q: int| 0 <= q < polygons.len() && holds_triangle(polygons[q]@, tri)
}

/// Every point of the path is a vertex point of some triangle of `t`.
pub open spec fn points_of_mesh(path: Seq<IntPoint>, t: Seq<IntTriangle>) -> bool {
    forall|w: int|
        0 <= w < path.len() ==> exists|m: int, s: int|
            0 <= m < t.len() && 0 <= s < 3 && #[trigger] path[w] == t[m].vertices@[s].point
}

/// A boundary vertex of the polygon being grown.
#[derive(Clone, Copy)]
struct Node {
    next: usize,
    prev: usize,
    point: IntPoint,
}

/// A boundary edge of the polygon, from node `a` to node `b`, that the
/// triangle `triangle_index` shares with its neighbor `neighbor`.
#[derive(Clone, Copy)]
struct Edge {
    triangle_index: usize,
    neighbor: usize,
    a: usize,
    b: usize,
}

/// `o` lists every node once, starting at node 0, and each node's `next` and
/// `prev` are its successor and predecessor in `o`, cyclically.
spec fn cycle_links(nodes: Seq<Node>, o: Seq<int>) -> bool {
    let len = nodes.len() as int;
    &&& len >= 3
    &&& o.len() == len
    &&& o[0] == 0
    &&& forall|q: int| 0 <= q < len ==> 0 <= #[trigger] o[q] < len
    &&& forall|q1: int, q2: int| 0 <= q1 < q2 < len ==> #[trigger] o[q1] != #[trigger] o[q2]
    &&& forall|q: int|
        0 <= q < len ==> #[trigger] nodes[o[q]].next == o[cnext(q, len)] && nodes[o[cnext(q, len)]].prev == o[q]
}

/// Absorbing triangle `n`, whose apex `x` goes between the path points at
/// positions `q` and after, puts all its vertex points on the path.
proof fn lemma_absorb_points(
    path: Seq<IntPoint>,
    q: int,
    x: IntPoint,
    path2: Seq<IntPoint>,
    t: Seq<IntTriangle>,
    n: int,
    r: int,
)
    requires
        0 <= q < path.len(),
        path2 == path.insert(q + 1, x),
        0 <= n < t.len(),
        0 <= r < 3,
        t[n].vertices@[r].point == x,
        t[n].vertices@[nxt(r)].point == path[cnext(q, path.len() as int)],
        t[n].vertices@[prv(r)].point == path[q],
    ensures
        holds_triangle(path2, t[n]),
        forall|y: IntPoint| path.contains(y) ==> path2.contains(y),
        points_of_mesh(path, t) ==> points_of_mesh(path2, t),
{
    lemma_insert_points(path, q, x, path2);
    assert(path.contains(path[q]));
    assert(path.contains(path[cnext(q, path.len() as int)]));
    assert forall|s2: int| 0 <= s2 < 3 implies path2.contains(#[trigger] t[n].vertices@[s2].point) by {
        if s2 == r {
        } else if s2 == nxt(r) {
        } else {
        }
    }
    if points_of_mesh(path, t) {
        assert forall|w: int| 0 <= w < path2.len() implies exists|m: int, s2: int|
            0 <= m < t.len() && 0 <= s2 < 3 && #[trigger] path2[w] == t[m].vertices@[s2].point by {
            if w == q + 1 {
                assert(path2[w] == t[n].vertices@[r].point);
            } else if w < q + 1 {
                assert(path2[w] == path[w]);
            } else {
                assert(path2[w] == path[w - 1]);
            }
        }
    }
}

/// Inserting a point keeps every point of the path on it.
proof fn lemma_insert_points(path: Seq<IntPoint>, q: int, x: IntPoint, path2: Seq<IntPoint>)
    requires
        0 <= q < path.len(),
        path2 == path.insert(q + 1, x),
    ensures
        path2[q + 1] == x,
        path2.contains(x),
        forall|y: IntPoint| path.contains(y) ==> path2.contains(y),
        forall|w: int| 0 <= w <= q ==> path2[w] == path[w],
        forall|w: int| q + 1 < w < path2.len() ==> path2[w] == path[w - 1],
{
    assert(path2[q + 1] == x);
    assert forall|y: IntPoint| path.contains(y) implies path2.contains(y) by {
        let w = choose|w: int| 0 <= w < path.len() && path[w] == y;
        if w <= q {
            assert(path2[w] == y);
        } else {
            assert(path2[w + 1] == y);
        }
    }
}

/// The points of the nodes listed in `o`.
spec fn path_of(nodes: Seq<Node>, o: Seq<int>) -> Seq<IntPoint> {
    o.map_values(|u: int| nodes[u].point)
}

/// Inserting a node after position `q` inserts its point in the path and adds
/// the area of the triangle it makes with its two neighbors.
proof fn lemma_insert_area(nodes: Seq<Node>, nodes2: Seq<Node>, o: Seq<int>, q: int)
    requires
        cycle_links(nodes, o),
        0 <= q < nodes.len(),
        nodes2.len() == nodes.len() + 1,
        forall|u: int| 0 <= u < nodes.len() ==> #[trigger] nodes2[u].point == nodes[u].point,
    ensures
        path_of(nodes2, o.insert(q + 1, nodes.len() as int)) == path_of(nodes, o).insert(
            q + 1,
            nodes2[nodes.len() as int].point,
        ),
        path_area(path_of(nodes2, o.insert(q + 1, nodes.len() as int))) == path_area(path_of(nodes, o))
            + area_two(
            nodes[o[q]].point,
            nodes2[nodes.len() as int].point,
            nodes[nodes[o[q]].next as int].point,
        ),
{
    let len = nodes.len() as int;
    let x = nodes2[len].point;
    let path0 = path_of(nodes, o);
    let o2 = o.insert(q + 1, len);
    assert forall|w: int| 0 <= w < len + 1 implies #[trigger] path_of(nodes2, o2)[w] == path0.insert(q + 1, x)[w] by {
        if w < q + 1 {
            assert(o2[w] == o[w]);
        } else if w > q + 1 {
            assert(o2[w] == o[w - 1]);
        }
    }
    assert(path_of(nodes2, o2) =~= path0.insert(q + 1, x));
    lemma_path_area_insert(path0, q, x);
    assert(nodes[o[q]].next == o[cnext(q, len)]);
    lemma_seg_triangle(nodes[o[q]].point, x, nodes[nodes[o[q]].next as int].point);
}

/// The links around one position of the cycle after the insertion.
proof fn lemma_insert_cycle_at(nodes: Seq<Node>, nodes2: Seq<Node>, o: Seq<int>, q: int, q2: int)
    requires
        cycle_links(nodes, o),
        0 <= q < nodes.len(),
        nodes2.len() == nodes.len() + 1,
        nodes2[nodes.len() as int].next == nodes[o[q]].next,
        nodes2[nodes.len() as int].prev == o[q],
        nodes2[o[q]].next == nodes.len(),
        nodes2[o[q]].prev == nodes[o[q]].prev,
        nodes2[nodes[o[q]].next as int].prev == nodes.len(),
        nodes2[nodes[o[q]].next as int].next == nodes[nodes[o[q]].next as int].next,
        forall|u: int|
            0 <= u < nodes.len() && u != o[q] && u != nodes[o[q]].next ==> #[trigger] nodes2[u] == nodes[u],
        0 <= q2 < nodes.len() + 1,
    ensures
        ({
            let o2 = o.insert(q + 1, nodes.len() as int);
            let len2 = nodes.len() as int + 1;
            nodes2[o2[q2]].next == o2[cnext(q2, len2)] && nodes2[o2[cnext(q2, len2)]].prev == o2[q2]
        }),
{
    let len = nodes.len() as int;
    let o2 = o.insert(q + 1, len);
    let len2 = len + 1;
    let a1 = o[q];
    assert(nodes[o[q]].next == o[cnext(q, len)]);
    assert(o[cnext(q, len)] != a1);

        if q2 < q {
            assert(o2[q2] == o[q2]);
            assert(o2[q2 + 1] == o[q2 + 1]);
            assert(cnext(q2, len) == q2 + 1);
            assert(nodes[o[q2]].next == o[q2 + 1]);
            assert(o[q2] != o[q]);
            if q2 + 1 != cnext(q, len) {
                assert(o[q2 + 1] != o[cnext(q, len)]);
            }
            if q2 != cnext(q, len) {
                assert(o[q2] != o[cnext(q, len)]);
            }
        } else if q2 == q {
        } else if q2 == q + 1 {
            if q + 1 < len {
                assert(o2[q + 2] == o[q + 1]);
            } else {
                assert(o2[0] == o[0]);
            }
        } else {
            assert(o2[q2] == o[q2 - 1]);
            assert(o[q2 - 1] != o[q]);
            assert(nodes[o[q2 - 1]].next == o[cnext(q2 - 1, len)]);
            let c = cnext(q2, len2);
            if c == 0 {
                assert(o2[0] == o[0]);
                assert(cnext(q2 - 1, len) == 0);
                if q2 - 1 != cnext(q, len) {
                    assert(o[q2 - 1] != o[cnext(q, len)]);
                }
                if 0 != q {
                    assert(o[0] != o[q]);
                }
                if 0 != cnext(q, len) {
                    assert(o[0] != o[cnext(q, len)]);
                }
            } else {
                assert(o2[c] == o[c - 1]);
                assert(cnext(q2 - 1, len) == c - 1);
                if q2 - 1 != cnext(q, len) {
                    assert(o[q2 - 1] != o[cnext(q, len)]);
                }
                if c - 1 != q {
                    assert(o[c - 1] != o[q]);
                }
                if c - 1 != cnext(q, len) {
                    assert(o[c - 1] != o[cnext(q, len)]);
                }
            }
        }
}

/// Inserting a node `p` between the consecutive nodes `o[q]` and its successor.
#[verifier::rlimit(60)]
proof fn lemma_insert_cycle(nodes: Seq<Node>, nodes2: Seq<Node>, o: Seq<int>, q: int)
    requires
        cycle_links(nodes, o),
        0 <= q < nodes.len(),
        nodes2.len() == nodes.len() + 1,
        nodes2[nodes.len() as int].next == nodes[o[q]].next,
        nodes2[nodes.len() as int].prev == o[q],
        nodes2[o[q]].next == nodes.len(),
        nodes2[o[q]].prev == nodes[o[q]].prev,
        nodes2[nodes[o[q]].next as int].prev == nodes.len(),
        nodes2[nodes[o[q]].next as int].next == nodes[nodes[o[q]].next as int].next,
        forall|u: int|
            0 <= u < nodes.len() && u != o[q] && u != nodes[o[q]].next ==> #[trigger] nodes2[u] == nodes[u],
    ensures
        cycle_links(nodes2, o.insert(q + 1, nodes.len() as int)),
{
    let len = nodes.len() as int;
    let o2 = o.insert(q + 1, len);
    let len2 = len + 1;
    let a1 = o[q];
    let b1 = nodes[a1].next as int;
    assert(nodes[o[q]].next == o[cnext(q, len)]);
    assert(o[cnext(q, len)] != a1);
    assert forall|q2: int| 0 <= q2 < len2 implies 0 <= #[trigger] o2[q2] < len2 by {
        if q2 > q + 1 {
            assert(o2[q2] == o[q2 - 1]);
        } else if q2 < q + 1 {
            assert(o2[q2] == o[q2]);
        }
    }
    assert forall|q1: int, q2: int| 0 <= q1 < q2 < len2 implies #[trigger] o2[q1] != #[trigger] o2[q2] by {
        let i1 = if q1 <= q { q1 } else { q1 - 1 };
        let i2 = if q2 <= q { q2 } else { q2 - 1 };
        if q1 != q + 1 && q2 != q + 1 {
            assert(o2[q1] == o[i1]);
            assert(o2[q2] == o[i2]);
            assert(i1 < i2);
        } else if q1 == q + 1 {
            assert(o2[q2] == o[i2]);
        } else {
            assert(o2[q1] == o[i1]);
        }
    }
    assert forall|q2: int| 0 <= q2 < len2 implies #[trigger] nodes2[o2[q2]].next == o2[cnext(q2, len2)]
        && nodes2[o2[cnext(q2, len2)]].prev == o2[q2] by {
        lemma_insert_cycle_at(nodes, nodes2, o, q, q2);
    }
}

/// `nodes2` is `nodes` with a node of point `x` appended and linked between
/// the nodes `edge.a` and `edge.b`.
spec fn spliced(nodes: Seq<Node>, nodes2: Seq<Node>, edge: Edge, x: IntPoint) -> bool {
    let p = nodes.len() as int;
    &&& nodes2.len() == p + 1
    &&& nodes2[p] == Node { next: edge.b, prev: edge.a, point: x }
    &&& nodes2[edge.a as int] == Node { next: p as usize, ..nodes[edge.a as int] }
    &&& nodes2[edge.b as int] == Node { prev: p as usize, ..nodes[edge.b as int] }
    &&& forall|u: int| 0 <= u < p && u != edge.a && u != edge.b ==> #[trigger] nodes2[u] == nodes[u]
}

/// The edges left to cross after `triangle` is absorbed across `edge` with
/// its apex as node `p`: from `edge.a` to `p`, then from `p` to `edge.b`, each
/// only where the triangle has a neighbor there.
spec fn absorbed_edges(edge: Edge, triangle: IntTriangle, p: usize) -> Seq<Edge> {
    let r = triangle.slot_of(edge.triangle_index);
    let next_neighbor = triangle.neighbors@[nxt(r)];
    let prev_neighbor = triangle.neighbors@[prv(r)];
    let first = if next_neighbor != NIL_INDEX {
        seq![Edge { triangle_index: edge.neighbor, neighbor: next_neighbor, a: edge.a, b: p }]
    } else {
        Seq::<Edge>::empty()
    };
    let second = if prev_neighbor != NIL_INDEX {
        seq![Edge { triangle_index: edge.neighbor, neighbor: prev_neighbor, a: p, b: edge.b }]
    } else {
        Seq::<Edge>::empty()
    };
    first + second
}

/// The edge from node `a` to node `b` of a starting triangle, to cross into
/// `neighbor`; none on the boundary.
spec fn start_edge(triangle_index: usize, neighbor: usize, a: usize, b: usize) -> Seq<Edge> {
    if neighbor != NIL_INDEX {
        seq![Edge { triangle_index, neighbor, a, b }]
    } else {
        Seq::<Edge>::empty()
    }
}

struct ConvexPolygonBuilder {
    nodes: Vec<Node>,
    edges: Vec<Edge>,
    /// The node indices in boundary order, starting at node 0.
    order: Ghost<Seq<int>>,
}

impl ConvexPolygonBuilder {
    /// The boundary points in order.
    spec fn path(&self) -> Seq<IntPoint> {
        path_of(self.nodes@, self.order@)
    }

    #[verifier::opaque]
    spec fn cycle_ok(&self) -> bool {
        &&& cycle_links(self.nodes@, self.order@)
        &&& forall|u: int| 0 <= u < self.nodes.len() ==> #[trigger] self.node_ok(u)
    }

    /// Node `u` links to nodes that exist, its point is in range, and the
    /// boundary turns at it the way the mesh triangles do.
    spec fn node_ok(&self, u: int) -> bool {
        let len = self.nodes.len();
        let nd = self.nodes@[u];
        &&& nd.next < len
        &&& nd.prev < len
        &&& nd.point.in_range()
        &&& area_two(self.nodes@[nd.prev as int].point, nd.point, self.nodes@[nd.next as int].point) < 0
    }

    spec fn edge_ok(&self, t: Seq<IntTriangle>, e: Edge) -> bool {
        let s = t[e.triangle_index as int].slot_of(e.neighbor);
        &&& e.triangle_index < t.len()
        &&& e.neighbor != NIL_INDEX
        &&& t[e.triangle_index as int].neighbors@[s] == e.neighbor
        &&& e.a < self.nodes.len()
        &&& e.b < self.nodes.len()
        &&& self.order@.contains(e.a as int)
        &&& self.nodes@[e.a as int].next == e.b
        &&& t[e.triangle_index as int].vertices@[nxt(s)].point == self.nodes@[e.a as int].point
        &&& t[e.triangle_index as int].vertices@[prv(s)].point == self.nodes@[e.b as int].point
    }

    #[verifier::opaque]
    spec fn wf(&self, t: Seq<IntTriangle>) -> bool {
        &&& self.cycle_ok()
        &&& forall|q: int| 0 <= q < self.edges.len() ==> self.edge_ok(t, #[trigger] self.edges@[q])
        &&& forall|q1: int, q2: int|
            0 <= q1 < self.edges.len() && 0 <= q2 < self.edges.len() && q1 != q2
                ==> (#[trigger] self.edges@[q1]).a != (#[trigger] self.edges@[q2]).a
    }

    /// A polygon made of the triangle `triangle_index` alone, with one edge to
    /// cross for each of its neighbors.
    fn start(triangle_index: usize, triangle: IntTriangle, Ghost(t): Ghost<Seq<IntTriangle>>) -> (r: Self)
        requires
            triangle_index < t.len(),
            t[triangle_index as int] == triangle,
            triangle.is_proper(),
            triangle.distinct_neighbors(),
        ensures
            r.wf(t),
            r.edges.len() <= 3,
            path_area(r.path()) == triangle.area(),
            r.nodes@ == seq![
                Node { next: 1, prev: 2, point: triangle.vertices@[0].point },
                Node { next: 2, prev: 0, point: triangle.vertices@[1].point },
                Node { next: 0, prev: 1, point: triangle.vertices@[2].point },
            ],
            r.edges@ == start_edge(triangle_index, triangle.neighbors@[2], 0, 1) + start_edge(
                triangle_index,
                triangle.neighbors@[0],
                1,
                2,
            ) + start_edge(triangle_index, triangle.neighbors@[1], 2, 0),
            holds_triangle(r.path(), triangle),
            points_of_mesh(r.path(), t),
    {
        reveal(ConvexPolygonBuilder::wf);
        reveal(ConvexPolygonBuilder::cycle_ok);
        let va = triangle.vertices[0].point;
        let vb = triangle.vertices[1].point;
        let vc = triangle.vertices[2].point;
        let mut nodes: Vec<Node> = Vec::new();
        nodes.push(Node { next: 1, prev: 2, point: va });
        nodes.push(Node { next: 2, prev: 0, point: vb });
        nodes.push(Node { next: 0, prev: 1, point: vc });
        let mut edges: Vec<Edge> = Vec::new();
        let bc = triangle.neighbors[0];
        let ca = triangle.neighbors[1];
        let ab = triangle.neighbors[2];
        if ab != NIL_INDEX {
            edges.push(Edge { triangle_index, neighbor: ab, a: 0, b: 1 });
        }
        if bc != NIL_INDEX {
            edges.push(Edge { triangle_index, neighbor: bc, a: 1, b: 2 });
        }
        if ca != NIL_INDEX {
            edges.push(Edge { triangle_index, neighbor: ca, a: 2, b: 0 });
        }
        let ghost order = seq![0int, 1int, 2int];
        let r = ConvexPolygonBuilder { nodes, edges, order: Ghost(order) };
        proof {
            lemma_area_rotate(va, vb, vc);
            lemma_area_rotate(vb, vc, va);
            assert(r.node_ok(0));
            assert(r.node_ok(1));
            assert(r.node_ok(2));
            assert(r.order@.contains(0));
            assert(r.order@[1] == 1);
            assert(r.order@[2] == 2);
            assert(r.path() =~= seq![va, vb, vc]);
            assert(r.nodes@ =~= seq![
                Node { next: 1, prev: 2, point: va },
                Node { next: 2, prev: 0, point: vb },
                Node { next: 0, prev: 1, point: vc },
            ]);
            assert(r.edges@ =~= start_edge(triangle_index, ab, 0, 1) + start_edge(triangle_index, bc, 1, 2)
                + start_edge(triangle_index, ca, 2, 0));
            lemma_seg_triangle(va, vb, vc);
            assert(chain(r.path(), 1) == 0);
            assert(chain(r.path(), 2) == seg(va, vb));
            assert(chain(r.path(), 3) == seg(va, vb) + seg(vb, vc));
            assert(r.path()[0] == va && r.path()[1] == vb && r.path()[2] == vc);
            assert forall|s: int| 0 <= s < 3 implies r.path().contains(#[trigger] triangle.vertices@[s].point) by {
                assert(r.path()[s] == triangle.vertices@[s].point);
            }
            assert forall|w: int| 0 <= w < r.path().len() implies exists|m: int, s: int|
                0 <= m < t.len() && 0 <= s < 3 && #[trigger] r.path()[w] == t[m].vertices@[s].point by {
                assert(r.path()[w] == t[triangle_index as int].vertices@[w].point);
            }
        }
        r
    }

    /// Absorbs `triangle`, the neighbor across `edge`, when the boundary stays
    /// strictly convex at both ends of the edge; its apex becomes a new node
    /// between them. Returns whether it absorbed the triangle.
    #[verifier::rlimit(100)]
    fn add(&mut self, edge: Edge, triangle: IntTriangle, Ghost(t): Ghost<Seq<IntTriangle>>) -> (r: bool)
        requires
            mesh_wf(t),
            old(self).wf(t),
            old(self).edge_ok(t, edge),
            forall|q: int| 0 <= q < old(self).edges.len() ==> (#[trigger] old(self).edges@[q]).a != edge.a,
            edge.neighbor < t.len(),
            t[edge.neighbor as int] == triangle,
        ensures
            final(self).wf(t),
            r == (area_two(
                old(self).nodes@[old(self).nodes@[edge.a as int].prev as int].point,
                old(self).nodes@[edge.a as int].point,
                triangle.vertices@[triangle.slot_of(edge.triangle_index)].point,
            ) < 0 && area_two(
                triangle.vertices@[triangle.slot_of(edge.triangle_index)].point,
                old(self).nodes@[edge.b as int].point,
                old(self).nodes@[old(self).nodes@[edge.b as int].next as int].point,
            ) < 0),
            !r ==> final(self).nodes@ == old(self).nodes@ && final(self).edges@ == old(self).edges@
                && final(self).order@ == old(self).order@,
            r ==> spliced(old(self).nodes@, final(self).nodes@, edge, triangle.vertices@[triangle.slot_of(edge.triangle_index)].point),
            r ==> final(self).edges@ == old(self).edges@ + absorbed_edges(edge, triangle, old(self).nodes.len()),
            !r ==> final(self).path() == old(self).path(),
            r ==> path_area(final(self).path()) == path_area(old(self).path()) + triangle.area(),
            r ==> holds_triangle(final(self).path(), triangle),
            forall|x: IntPoint| old(self).path().contains(x) ==> final(self).path().contains(x),
            points_of_mesh(old(self).path(), t) ==> points_of_mesh(final(self).path(), t),
            final(self).edges.len() <= old(self).edges.len() + 2,
    {
        reveal(ConvexPolygonBuilder::wf);
        reveal(ConvexPolygonBuilder::cycle_ok);
        let ghost o = self.order@;
        let ghost len = self.nodes.len() as int;
        let ghost ti = edge.triangle_index as int;
        let ghost n = edge.neighbor as int;
        let ghost s = t[ti].slot_of(edge.neighbor);
        proof {
            assert(link_ok(t, ti, s));
            assert(t[n].is_proper());
            assert(t[n].distinct_neighbors());
        }
        let v_index = triangle.neighbor_slot(edge.triangle_index);
        let v = triangle.vertices[v_index];
        let ghost q = choose|q: int| 0 <= q < len && o[q] == edge.a as int;
        proof {
            assert(self.node_ok(edge.a as int));
            assert(self.node_ok(edge.b as int));
            assert(self.nodes@[o[q]].next == o[cnext(q, len)]);
            lemma_area_from(t[n], v_index as int);
            lemma_area_rotate(v.point, self.nodes@[edge.b as int].point, self.nodes@[edge.a as int].point);
            lemma_area_rotate(self.nodes@[edge.b as int].point, self.nodes@[edge.a as int].point, v.point);
            assert(self.node_ok(self.nodes@[edge.a as int].prev as int));
            assert(self.node_ok(self.nodes@[edge.b as int].next as int));
        }
        let node_a1 = self.nodes[edge.a];
        let va0 = self.nodes[node_a1.prev].point;
        let va1 = node_a1.point;
        if area_two_point(va0, va1, v.point) >= 0 {
            return false;
        }
        let node_b1 = self.nodes[edge.b];
        let vb0 = self.nodes[node_b1.next].point;
        let vb1 = node_b1.point;
        if area_two_point(v.point, vb1, vb0) >= 0 {
            return false;
        }
        let prev_neighbor = triangle.neighbors[prev_slot(v_index)];
        let next_neighbor = triangle.neighbors[next_slot(v_index)];
        let new_index = self.nodes.len();
        let ghost old_nodes = self.nodes@;
        let ghost old_edges = self.edges@;
        self.nodes.push(Node { next: edge.b, prev: edge.a, point: v.point });
        let mut na = node_a1;
        na.next = new_index;
        self.nodes.set(edge.a, na);
        let mut nb = self.nodes[edge.b];
        nb.prev = new_index;
        self.nodes.set(edge.b, nb);
        self.order = Ghost(o.insert(q + 1, new_index as int));
        if next_neighbor != NIL_INDEX {
            self.edges.push(Edge { triangle_index: edge.neighbor, neighbor: next_neighbor, a: edge.a, b: new_index });
        }
        if prev_neighbor != NIL_INDEX {
            self.edges.push(Edge { triangle_index: edge.neighbor, neighbor: prev_neighbor, a: new_index, b: edge.b });
        }
        proof {
            let o2 = self.order@;
            let len2 = len + 1;
            let a1 = edge.a as int;
            let b1 = edge.b as int;
            let p = new_index as int;
            lemma_insert_cycle(old_nodes, self.nodes@, o, q);
            assert forall|u: int| 0 <= u < len implies #[trigger] self.nodes@[u].point == old_nodes[u].point by {
            }
            lemma_insert_area(old_nodes, self.nodes@, o, q);
            assert(old_nodes[a1].next == o[cnext(q, len)]);
            lemma_absorb_points(path_of(old_nodes, o), q, v.point, self.path(), t, n, v_index as int);
            assert forall|u: int| 0 <= u < len2 implies #[trigger] self.node_ok(u) by {
                if u < len && u != a1 && u != b1 {
                    assert(old_nodes[u] == self.nodes@[u]);
                    assert(old(self).node_ok(u));
                }
            }
            Self::lemma_old_edges(*old(self), *self, t, q, a1);
            assert forall|q2: int| 0 <= q2 < self.edges.len() implies self.edge_ok(t, #[trigger] self.edges@[q2]) by {
                let e = self.edges@[q2];
                if q2 >= old_edges.len() {
                    assert(o2[q] == a1);
                    assert(o2[q + 1] == p);
                    if e.neighbor == next_neighbor && e.a == edge.a {
                        assert(t[n].slot_of(next_neighbor) == nxt(v_index as int));
                    } else {
                        assert(t[n].slot_of(prev_neighbor) == prv(v_index as int));
                    }
                }
            }
            assert forall|q1: int, q2: int|
                0 <= q1 < self.edges.len() && 0 <= q2 < self.edges.len() && q1 != q2
                    implies (#[trigger] self.edges@[q1]).a != (#[trigger] self.edges@[q2]).a by {
                if q1 < old_edges.len() && q2 < old_edges.len() {
                    assert(old_edges[q1] == self.edges@[q1]);
                    assert(old_edges[q2] == self.edges@[q2]);
                } else if q1 < old_edges.len() {
                    assert(old_edges[q1] == self.edges@[q1]);
                    assert(old(self).edge_ok(t, old_edges[q1]));
                } else if q2 < old_edges.len() {
                    assert(old_edges[q2] == self.edges@[q2]);
                    assert(old(self).edge_ok(t, old_edges[q2]));
                }
            }
        }
        true
    }

    /// The edges that were on the stack before a node was inserted after
    /// `o[q]` stay correct: none of them starts at `o[q]`, the only node whose
    /// successor changed.
    proof fn lemma_old_edges(b0: Self, b1: Self, t: Seq<IntTriangle>, q: int, a1: int)
        requires
            0 <= q < b0.order@.len(),
            b0.order@[q] == a1,
            b1.order@ == b0.order@.insert(q + 1, b0.nodes.len() as int),
            b1.nodes.len() == b0.nodes.len() + 1,
            forall|u: int| 0 <= u < b0.nodes.len() ==> #[trigger] b1.nodes@[u].point == b0.nodes@[u].point,
            forall|u: int| 0 <= u < b0.nodes.len() && u != a1 ==> #[trigger] b1.nodes@[u].next == b0.nodes@[u].next,
            b1.edges.len() >= b0.edges.len(),
            forall|q2: int| 0 <= q2 < b0.edges.len() ==> #[trigger] b1.edges@[q2] == b0.edges@[q2],
            forall|q2: int| 0 <= q2 < b0.edges.len() ==> b0.edge_ok(t, #[trigger] b0.edges@[q2]),
            forall|q2: int| 0 <= q2 < b0.edges.len() ==> (#[trigger] b0.edges@[q2]).a != a1,
        ensures
            forall|q2: int| 0 <= q2 < b0.edges.len() ==> b1.edge_ok(t, #[trigger] b1.edges@[q2]),
    {
        let o = b0.order@;
        let o2 = b1.order@;
        assert forall|q2: int| 0 <= q2 < b0.edges.len() implies b1.edge_ok(t, #[trigger] b1.edges@[q2]) by {
            let e = b0.edges@[q2];
            assert(b1.edges@[q2] == e);
            assert(b0.edge_ok(t, e));
            let w = choose|w: int| 0 <= w < o.len() && o[w] == e.a as int;
            if w <= q {
                assert(o2[w] == e.a as int);
            } else {
                assert(o2[w + 1] == e.a as int);
            }
            assert(e.a as int != a1);
            assert(b1.nodes@[e.a as int].next == b0.nodes@[e.a as int].next);
        }
    }

    /// Taking the last edge off the stack keeps the builder well formed; the
    /// edge taken is correct and shares its first node with no other.
    proof fn lemma_pop(b0: Self, b1: Self, t: Seq<IntTriangle>)
        requires
            b0.wf(t),
            b1.nodes == b0.nodes,
            b1.order == b0.order,
            b0.edges.len() > 0 ==> b1.edges@ == b0.edges@.drop_last(),
            b0.edges.len() == 0 ==> b1.edges@ == b0.edges@,
        ensures
            b1.wf(t),
            b0.edges.len() > 0 ==> b1.edge_ok(t, b0.edges@.last()),
            b0.edges.len() > 0 ==> forall|q: int|
                0 <= q < b1.edges.len() ==> (#[trigger] b1.edges@[q]).a != b0.edges@.last().a,
    {
        reveal(ConvexPolygonBuilder::wf);
        reveal(ConvexPolygonBuilder::cycle_ok);
        assert forall|u: int| 0 <= u < b1.nodes.len() implies #[trigger] b1.node_ok(u) by {
            assert(b0.node_ok(u));
        }
        assert forall|q: int| 0 <= q < b1.edges.len() implies b1.edge_ok(t, #[trigger] b1.edges@[q]) by {
            assert(b0.edges@[q] == b1.edges@[q]);
            assert(b0.edge_ok(t, b0.edges@[q]));
        }
        assert forall|q1: int, q2: int|
            0 <= q1 < b1.edges.len() && 0 <= q2 < b1.edges.len() && q1 != q2
                implies (#[trigger] b1.edges@[q1]).a != (#[trigger] b1.edges@[q2]).a by {
            assert(b0.edges@[q1] == b1.edges@[q1]);
            assert(b0.edges@[q2] == b1.edges@[q2]);
        }
        if b0.edges.len() > 0 {
            let last = b0.edges.len() - 1;
            assert(b0.edge_ok(t, b0.edges@[last]));
            assert forall|q: int| 0 <= q < b1.edges.len() implies (#[trigger] b1.edges@[q]).a != b0.edges@.last().a by {
                assert(b0.edges@[q] == b1.edges@[q]);
                assert(b0.edges@[q].a != b0.edges@[last].a);
            }
        }
    }

    /// The boundary of a well-formed builder is a strictly convex path.
    proof fn lemma_convex(&self)
        requires
            self.cycle_ok(),
        ensures
            convex_path(self.path()),
    {
        reveal(ConvexPolygonBuilder::cycle_ok);
        let o = self.order@;
        let len = self.nodes.len() as int;
        let path = self.path();
        assert forall|q: int| 0 <= q < path.len() implies #[trigger] turns_inward(path, q) by {
            let c = cprev(q, len);
            assert(self.nodes@[o[c]].next == o[cnext(c, len)]);
            assert(cnext(c, len) == q);
            assert(self.nodes@[o[q]].next == o[cnext(q, len)]);
            assert(self.node_ok(o[q]));
        }
    }

    /// The boundary points in order, from node 0.
    fn to_path(&self) -> (r: Vec<IntPoint>)
        requires
            self.cycle_ok(),
        ensures
            r@ == self.path(),
    {
        reveal(ConvexPolygonBuilder::cycle_ok);
        let count = self.nodes.len();
        let mut path: Vec<IntPoint> = Vec::new();
        let mut node: usize = 0;
        let mut q: usize = 0;
        while q < count
            invariant
                self.cycle_ok(),
                count == self.nodes.len(),
                0 <= q <= count,
                q < count ==> node == self.order@[q as int],
                path@ == self.path().subrange(0, q as int),
            decreases count - q,
        {
            proof {
                reveal(ConvexPolygonBuilder::cycle_ok);
            }
            assert(0 <= self.order@[q as int] < count);
            path.push(self.nodes[node].point);
            proof {
                assert(path@ =~= self.path().subrange(0, q as int + 1));
            }
            node = self.nodes[node].next;
            q = q + 1;
        }
        proof {
            assert(path@ =~= self.path());
        }
        path
    }
}


/// A finished Delaunay mesh, ready to be split into convex polygons.
pub struct Delaunay {
    pub triangles: Vec<IntTriangle>,
}

/// Number of `false` marks among the first `len`.
pub open spec fn unmarked(marks: Seq<bool>, len: int) -> nat
    decreases len,
{
    if len <= 0 {
        0
    } else {
        unmarked(marks, len - 1) + if marks[len - 1] {
            0nat
        } else {
            1nat
        }
    }
}

proof fn lemma_unmarked_set(marks: Seq<bool>, m: int, len: int)
    requires
        0 <= m < marks.len(),
        0 <= len <= marks.len(),
        !marks[m],
    ensures
        unmarked(marks.update(m, true), len) + (if m < len {
            1nat
        } else {
            0nat
        }) == unmarked(marks, len),
    decreases len,
{
    if len > 0 {
        lemma_unmarked_set(marks, m, len - 1);
    }
}

/// Sum of twice the signed areas of the first `len` triangles that are marked.
pub open spec fn marked_area(t: Seq<IntTriangle>, marks: Seq<bool>, len: int) -> int
    decreases len,
{
    if len <= 0 {
        0
    } else {
        marked_area(t, marks, len - 1) + if marks[len - 1] {
            t[len - 1].area()
        } else {
            0
        }
    }
}

/// Sum of twice the signed areas of the first `len` polygons.
pub open spec fn polygons_area(polygons: Seq<Vec<IntPoint>>, len: int) -> int
    decreases len,
{
    if len <= 0 {
        0
    } else {
        polygons_area(polygons, len - 1) + path_area(polygons[len - 1]@)
    }
}

proof fn lemma_marked_area_set(t: Seq<IntTriangle>, marks: Seq<bool>, m: int, len: int)
    requires
        0 <= m < marks.len(),
        0 <= len <= marks.len(),
        !marks[m],
    ensures
        marked_area(t, marks.update(m, true), len) == marked_area(t, marks, len) + if m < len {
            t[m].area()
        } else {
            0
        },
    decreases len,
{
    if len > 0 {
        lemma_marked_area_set(t, marks, m, len - 1);
    }
}

proof fn lemma_marked_area_all(t: Seq<IntTriangle>, marks: Seq<bool>, len: int)
    requires
        0 <= len <= marks.len(),
        forall|m: int| 0 <= m < len ==> #[trigger] marks[m],
    ensures
        marked_area(t, marks, len) == area_sum_prefix(t, len),
    decreases len,
{
    if len > 0 {
        lemma_marked_area_all(t, marks, len - 1);
    }
}

proof fn lemma_marked_area_none(t: Seq<IntTriangle>, marks: Seq<bool>, len: int)
    requires
        0 <= len <= marks.len(),
        forall|m: int| 0 <= m < len ==> !#[trigger] marks[m],
    ensures
        marked_area(t, marks, len) == 0,
    decreases len,
{
    if len > 0 {
        lemma_marked_area_none(t, marks, len - 1);
    }
}

proof fn lemma_polygons_area_prefix(p: Seq<Vec<IntPoint>>, p2: Seq<Vec<IntPoint>>, len: int)
    requires
        0 <= len <= p.len(),
        len <= p2.len(),
        forall|q: int| 0 <= q < len ==> #[trigger] p2[q] == p[q],
    ensures
        polygons_area(p2, len) == polygons_area(p, len),
    decreases len,
{
    if len > 0 {
        lemma_polygons_area_prefix(p, p2, len - 1);
    }
}

impl Delaunay {
    /// Pops the builder's edges and absorbs each unvisited neighbor the
    /// builder accepts, until no edge is left.
    fn grow(&self, builder: &mut ConvexPolygonBuilder, visited: &mut Vec<bool>, Ghost(t): Ghost<Seq<IntTriangle>>)
        requires
            t == self.triangles@,
            mesh_wf(t),
            old(visited).len() == t.len(),
            old(builder).wf(t),
        ensures
            final(builder).cycle_ok(),
            final(visited).len() == t.len(),
            forall|m: int| 0 <= m < t.len() && #[trigger] old(visited)@[m] ==> final(visited)@[m],
            path_area(final(builder).path()) - path_area(old(builder).path()) == marked_area(t, final(visited)@, t.len() as int)
                - marked_area(t, old(visited)@, t.len() as int),
            forall|m: int|
                0 <= m < t.len() && #[trigger] final(visited)@[m] && !old(visited)@[m] ==> holds_triangle(
                    final(builder).path(),
                    t[m],
                ),
            forall|x: IntPoint| old(builder).path().contains(x) ==> final(builder).path().contains(x),
            points_of_mesh(old(builder).path(), t) ==> points_of_mesh(final(builder).path(), t),
    {
        reveal(ConvexPolygonBuilder::wf);
        let n = self.triangles.len();
        loop
            invariant
                t == self.triangles@,
                mesh_wf(t),
                n == t.len(),
                visited.len() == n,
                builder.wf(t),
                forall|m: int| 0 <= m < n && #[trigger] old(visited)@[m] ==> visited@[m],
                path_area(builder.path()) - path_area(old(builder).path()) == marked_area(t, visited@, n as int)
                    - marked_area(t, old(visited)@, n as int),
                forall|m: int|
                    0 <= m < n && #[trigger] visited@[m] && !old(visited)@[m] ==> holds_triangle(builder.path(), t[m]),
                forall|x: IntPoint| old(builder).path().contains(x) ==> builder.path().contains(x),
                points_of_mesh(old(builder).path(), t) ==> points_of_mesh(builder.path(), t),
            decreases 2 * unmarked(visited@, n as int) + builder.edges.len(),
        {
            let ghost before = *builder;
            let popped = builder.edges.pop();
            if popped.is_none() {
                proof {
                    ConvexPolygonBuilder::lemma_pop(before, *builder, t);
                }
                break;
            }
            let edge = popped.unwrap();
            proof {
                ConvexPolygonBuilder::lemma_pop(before, *builder, t);
                assert(link_ok(t, edge.triangle_index as int, t[edge.triangle_index as int].slot_of(edge.neighbor)));
            }
            if visited[edge.neighbor] {
                continue;
            }
            let triangle = self.triangles[edge.neighbor];
            let ghost path0 = builder.path();
            let ghost marks0 = visited@;
            if builder.add(edge, triangle, Ghost(t)) {
                proof {
                    lemma_unmarked_set(visited@, edge.neighbor as int, n as int);
                    lemma_marked_area_set(t, visited@, edge.neighbor as int, n as int);
                }
                visited.set(edge.neighbor, true);
                proof {
                    assert forall|m: int|
                        0 <= m < n && #[trigger] visited@[m] && !old(visited)@[m] implies holds_triangle(builder.path(), t[m]) by {
                        if m != edge.neighbor as int {
                            assert(marks0[m]);
                            assert forall|s2: int| 0 <= s2 < 3 implies builder.path().contains(#[trigger] t[m].vertices@[s2].point) by {
                                assert(path0.contains(t[m].vertices@[s2].point));
                            }
                        }
                    }
                }
            }
        }
    }

    /// The convex polygon grown from the unvisited triangle `i`; the triangles
    /// it absorbs, `i` among them, become visited.
    fn polygon_from(&self, i: usize, visited: &mut Vec<bool>, Ghost(t): Ghost<Seq<IntTriangle>>) -> (r: Vec<IntPoint>)
        requires
            t == self.triangles@,
            mesh_wf(t),
            i < t.len(),
            old(visited).len() == t.len(),
            !old(visited)@[i as int],
        ensures
            convex_path(r@),
            final(visited).len() == t.len(),
            final(visited)@[i as int],
            forall|m: int| 0 <= m < t.len() && #[trigger] old(visited)@[m] ==> final(visited)@[m],
            path_area(r@) == marked_area(t, final(visited)@, t.len() as int) - marked_area(
                t,
                old(visited)@,
                t.len() as int,
            ),
            forall|m: int|
                0 <= m < t.len() && #[trigger] final(visited)@[m] && !old(visited)@[m] ==> holds_triangle(r@, t[m]),
            points_of_mesh(r@, t),
    {
        let n = self.triangles.len();
        let first = self.triangles[i];
        proof {
            assert(t[i as int].is_proper());
            assert(t[i as int].distinct_neighbors());
        }
        let mut builder = ConvexPolygonBuilder::start(i, first, Ghost(t));
        proof {
            lemma_marked_area_set(t, visited@, i as int, n as int);
        }
        visited.set(i, true);
        let ghost marked = visited@;
        let ghost path0 = builder.path();
        self.grow(&mut builder, visited, Ghost(t));
        proof {
            assert(marked[i as int]);
            assert forall|m: int|
                0 <= m < t.len() && #[trigger] visited@[m] && !old(visited)@[m] implies holds_triangle(builder.path(), t[m]) by {
                if m == i as int {
                    assert forall|s2: int| 0 <= s2 < 3 implies builder.path().contains(#[trigger] t[m].vertices@[s2].point) by {
                        assert(path0.contains(t[m].vertices@[s2].point));
                    }
                } else {
                    assert(!marked[m]);
                }
            }
            assert forall|m: int| 0 <= m < t.len() && #[trigger] old(visited)@[m] implies visited@[m] by {
                assert(marked[m]);
            }
        }
        let path = builder.to_path();
        proof {
            builder.lemma_convex();
        }
        path
    }

    pub fn new(triangles: Vec<IntTriangle>) -> (r: Self)
        ensures
            r.triangles == triangles,
    {
        Delaunay { triangles }
    }

    /// Splits the mesh into strictly convex polygons: from each triangle not
    /// yet taken, absorbs neighbors across shared edges as long as the
    /// boundary stays strictly convex, and emits the boundary.
    pub fn to_convex_polygons(&self) -> (r: Vec<Vec<IntPoint>>)
        requires
            mesh_wf(self.triangles@),
        ensures
            forall|q: int| 0 <= q < r.len() ==> convex_path(#[trigger] r@[q]@),
            r.len() <= self.triangles.len(),
            self.triangles.len() > 0 ==> r.len() > 0,
            polygons_area(r@, r.len() as int) == area_sum(self.triangles@),
            forall|q: int| 0 <= q < r.len() ==> points_of_mesh(#[trigger] r@[q]@, self.triangles@),
            forall|m: int| 0 <= m < self.triangles.len() ==> on_some_polygon(r@, #[trigger] self.triangles@[m]),
            exists|owner: Seq<int>| assignment(self.triangles@, r@, owner),
    {
        let ghost t = self.triangles@;
        let n = self.triangles.len();
        let mut result: Vec<Vec<IntPoint>> = Vec::new();
        let mut visited: Vec<bool> = vec![false; n];
        let ghost mut owner = no_owner(n as nat);
        proof {
            lemma_marked_area_none(t, visited@, n as int);
            lemma_start_assignment(t, visited@);
        }
        let mut i: usize = 0;
        while i < n
            invariant
                t == self.triangles@,
                mesh_wf(t),
                n == t.len(),
                visited.len() == n,
                0 <= i <= n,
                result.len() <= i,
                i > 0 ==> result.len() > 0,
                result.len() == 0 ==> forall|m: int| 0 <= m < n ==> !#[trigger] visited@[m],
                forall|m: int| 0 <= m < i ==> #[trigger] visited@[m],
                polygons_area(result@, result.len() as int) == marked_area(t, visited@, n as int),
                partial_assignment(t, result@, owner, visited@),
            decreases n - i,
        {
            if visited[i] {
                i = i + 1;
                continue;
            }
            let ghost marks = visited@;
            let path = self.polygon_from(i, &mut visited, Ghost(t));
            proof {
                assert forall|m: int| 0 <= m <= i implies #[trigger] visited@[m] by {
                    if m < i {
                        assert(marks[m]);
                    }
                }
            }
            let ghost before = result@;
            result.push(path);
            proof {
                lemma_polygons_area_prefix(before, result@, before.len() as int);
                assert(result@[before.len() as int] == path);
                lemma_owner_step(t, owner, marks, visited@, before, path, result@);
                owner = next_owner(owner, marks, visited@, before.len() as int);
            }
            i = i + 1;
        }
        proof {
            lemma_marked_area_all(t, visited@, n as int);
            lemma_full_assignment(t, result@, owner, visited@);
            assert forall|m: int| 0 <= m < n implies on_some_polygon(result@, #[trigger] t[m]) by {
                assert(0 <= owner[m] < result.len());
            }
        }
        result
    }
}


proof fn lemma_polygons_area_concat(a: Seq<Vec<IntPoint>>, b: Seq<Vec<IntPoint>>, len: int)
    requires
        0 <= len <= b.len(),
    ensures
        polygons_area(a + b, a.len() + len) == polygons_area(a, a.len() as int) + polygons_area(b, len),
    decreases len,
{
    if len > 0 {
        lemma_polygons_area_concat(a, b, len - 1);
        assert((a + b)[a.len() + len - 1] == b[len - 1]);
    } else {
        lemma_polygons_area_prefix(a, a + b, a.len() as int);
    }
}

/// Sum of twice the signed areas of the first `k` meshes.
pub open spec fn meshes_area(meshes: Seq<Delaunay>, k: int) -> int
    decreases k,
{
    if k <= 0 {
        0
    } else {
        meshes_area(meshes, k - 1) + area_sum(meshes[k - 1].triangles@)
    }
}

/// The convex polygons of several meshes, mesh after mesh.
pub fn convex_polygons(meshes: &Vec<Delaunay>) -> (r: Vec<Vec<IntPoint>>)
    requires
        forall|k: int| 0 <= k < meshes.len() ==> mesh_wf(#[trigger] meshes@[k].triangles@),
    ensures
        forall|q: int| 0 <= q < r.len() ==> convex_path(#[trigger] r@[q]@),
        polygons_area(r@, r.len() as int) == meshes_area(meshes@, meshes.len() as int),
{
    let mut polygons: Vec<Vec<IntPoint>> = Vec::new();
    let mut k: usize = 0;
    while k < meshes.len()
        invariant
            0 <= k <= meshes.len(),
            forall|k2: int| 0 <= k2 < meshes.len() ==> mesh_wf(#[trigger] meshes@[k2].triangles@),
            forall|q: int| 0 <= q < polygons.len() ==> convex_path(#[trigger] polygons@[q]@),
            polygons_area(polygons@, polygons.len() as int) == meshes_area(meshes@, k as int),
        decreases meshes.len() - k,
    {
        let mut part = meshes[k].to_convex_polygons();
        let ghost before = polygons@;
        let ghost added = part@;
        polygons.append(&mut part);
        proof {
            assert(polygons@ == before + added);
            lemma_polygons_area_concat(before, added, added.len() as int);
            assert forall|q: int| 0 <= q < polygons.len() implies convex_path(#[trigger] polygons@[q]@) by {
                if q < before.len() {
                    assert(polygons@[q] == before[q]);
                } else {
                    assert(polygons@[q] == added[q - before.len()]);
                }
            }
        }
        k = k + 1;
    }
    polygons
}

} // verus!
