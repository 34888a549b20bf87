use vstd::prelude::*;

verus! {

/// Largest magnitude a coordinate may have: differences of two coordinates
/// then fit in 31 bits, and every product the predicates form fits in 64 bits.
pub const MAX_COORD: i32 = 1073741823;

/// A point of the integer plane.
#[derive(Clone, Copy, Debug, PartialEq, Eq, Hash, Structural)]
pub struct IntPoint {
    pub x: i32,
    pub y: i32,
}

impl IntPoint {
    /// Both coordinates lie within `MAX_COORD` of the origin.
    pub open spec fn in_range(self) -> bool {
        -MAX_COORD <= self.x <= MAX_COORD && -MAX_COORD <= self.y <= MAX_COORD
    }

    pub fn new(x: i32, y: i32) -> (r: Self)
        ensures
            r.x == x,
            r.y == y,
    {
        IntPoint { x, y }
    }
}

/// Dot product of the vectors `u - o` and `v - o`.
pub open spec fn dot_at(o: IntPoint, u: IntPoint, v: IntPoint) -> int {
    (u.x - o.x) * (v.x - o.x) + (u.y - o.y) * (v.y - o.y)
}

/// Cross product of the vectors `u - o` and `v - o`.
pub open spec fn cross_at(o: IntPoint, u: IntPoint, v: IntPoint) -> int {
    (u.x - o.x) * (v.y - o.y) - (u.y - o.y) * (v.x - o.x)
}

/// Twice the signed area of the triangle `a, b, c`; negative when the
/// triangle is clockwise.
pub open spec fn area_two(a: IntPoint, b: IntPoint, c: IntPoint) -> int {
    cross_at(a, c, b)
}

pub open spec fn abs(x: int) -> int {
    if x < 0 {
        -x
    } else {
        x
    }
}

/// The angle-sum test for the edge `b c` shared by the triangle `a, b, c` and a
/// triangle with apex `p`: with `alpha` the angle at `p` and `beta` the angle at
/// `a`, both seen from the edge, it holds iff `alpha + beta <= 180` degrees,
/// i.e. `sin(alpha + beta) >= 0`, where the cosines and sines are scaled by the
/// lengths of the vectors. When both angles are obtuse the sum exceeds 180.
pub open spec fn flip_not_required(p: IntPoint, a: IntPoint, b: IntPoint, c: IntPoint) -> bool {
    let cos_a = dot_at(p, b, c);
    let cos_b = dot_at(a, b, c);
    if cos_a < 0 && cos_b < 0 {
        false
    } else {
        abs(cross_at(p, b, c)) * cos_b + cos_a * abs(cross_at(a, b, c)) >= 0
    }
}

/// Bound on each product of two coordinate differences.
pub proof fn lemma_product_bound(x: int, y: int)
    requires
        -2 * MAX_COORD <= x <= 2 * MAX_COORD,
        -2 * MAX_COORD <= y <= 2 * MAX_COORD,
    ensures
        -4 * MAX_COORD * MAX_COORD <= x * y <= 4 * MAX_COORD * MAX_COORD,
{
    assert(-4 * MAX_COORD * MAX_COORD <= x * y <= 4 * MAX_COORD * MAX_COORD) by (nonlinear_arith)
        requires
            -2 * MAX_COORD <= x <= 2 * MAX_COORD,
            -2 * MAX_COORD <= y <= 2 * MAX_COORD,
    ;
}

/// `dot_at` and `cross_at` of points in range fit in an `i64`, with room to
/// spare: their magnitude is below `2^63`.
pub proof fn lemma_at_bounds(o: IntPoint, u: IntPoint, v: IntPoint)
    requires
        o.in_range(),
        u.in_range(),
        v.in_range(),
    ensures
        abs(dot_at(o, u, v)) <= 8 * MAX_COORD * MAX_COORD,
        abs(cross_at(o, u, v)) <= 8 * MAX_COORD * MAX_COORD,
        8 * MAX_COORD * MAX_COORD < 0x7fff_ffff_ffff_ffff,
{
    lemma_product_bound(u.x - o.x, v.x - o.x);
    lemma_product_bound(u.y - o.y, v.y - o.y);
    lemma_product_bound(u.x - o.x, v.y - o.y);
    lemma_product_bound(u.y - o.y, v.x - o.x);
}

/// `dot_at(o, u, v)` computed exactly.
pub fn dot_product(o: IntPoint, u: IntPoint, v: IntPoint) -> (r: i64)
    requires
        o.in_range(),
        u.in_range(),
        v.in_range(),
    ensures
        r == dot_at(o, u, v),
{
    proof {
        lemma_at_bounds(o, u, v);
        lemma_product_bound(u.x - o.x, v.x - o.x);
        lemma_product_bound(u.y - o.y, v.y - o.y);
    }
    let ux = u.x as i64 - o.x as i64;
    let uy = u.y as i64 - o.y as i64;
    let vx = v.x as i64 - o.x as i64;
    let vy = v.y as i64 - o.y as i64;
    ux * vx + uy * vy
}

/// `cross_at(o, u, v)` computed exactly.
pub fn cross_product(o: IntPoint, u: IntPoint, v: IntPoint) -> (r: i64)
    requires
        o.in_range(),
        u.in_range(),
        v.in_range(),
    ensures
        r == cross_at(o, u, v),
{
    proof {
        lemma_at_bounds(o, u, v);
        lemma_product_bound(u.x - o.x, v.y - o.y);
        lemma_product_bound(u.y - o.y, v.x - o.x);
    }
    let ux = u.x as i64 - o.x as i64;
    let uy = u.y as i64 - o.y as i64;
    let vx = v.x as i64 - o.x as i64;
    let vy = v.y as i64 - o.y as i64;
    ux * vy - uy * vx
}

/// Twice the signed area of `a, b, c`, exactly.
pub fn area_two_point(a: IntPoint, b: IntPoint, c: IntPoint) -> (r: i64)
    requires
        a.in_range(),
        b.in_range(),
        c.in_range(),
    ensures
        r == area_two(a, b, c),
{
    cross_product(a, c, b)
}


proof fn lemma_expand(u: int, v: int, w: int, z: int)
    ensures
        (u + v) * (w - z) == u * w - u * z + v * w - v * z,
{
    assert((u + v) * (w - z) == u * w - u * z + v * w - v * z) by (nonlinear_arith);
}

/// A product of two products, regrouped with its factors in a given order.
proof fn lemma_regroup(w: int, x: int, y: int, z: int)
    ensures
        (w * x) * (y * z) == w * (x * (y * z)),
        (w * x) * (y * z) == w * (y * (x * z)),
        (w * x) * (y * z) == w * (z * (x * y)),
        (w * x) * (y * z) == x * (w * (y * z)),
        (w * x) * (y * z) == x * (y * (w * z)),
        (w * x) * (y * z) == x * (z * (w * y)),
        (w * x) * (y * z) == y * (w * (x * z)),
        (w * x) * (y * z) == y * (x * (w * z)),
        (w * x) * (y * z) == z * (w * (x * y)),
        (w * x) * (y * z) == z * (x * (w * y)),
{
    assert((w * x) * (y * z) == w * (x * (y * z))) by (nonlinear_arith);
    assert((w * x) * (y * z) == w * (y * (x * z))) by (nonlinear_arith);
    assert((w * x) * (y * z) == w * (z * (x * y))) by (nonlinear_arith);
    assert((w * x) * (y * z) == x * (w * (y * z))) by (nonlinear_arith);
    assert((w * x) * (y * z) == x * (y * (w * z))) by (nonlinear_arith);
    assert((w * x) * (y * z) == x * (z * (w * y))) by (nonlinear_arith);
    assert((w * x) * (y * z) == y * (w * (x * z))) by (nonlinear_arith);
    assert((w * x) * (y * z) == y * (x * (w * z))) by (nonlinear_arith);
    assert((w * x) * (y * z) == z * (w * (x * y))) by (nonlinear_arith);
    assert((w * x) * (y * z) == z * (x * (w * y))) by (nonlinear_arith);
}

/// `(a . c) (p x c) + (p . c) (c x a) + (c . c) (a x p) == 0` for plane vectors.
proof fn lemma_dot_cross_identity(a1: int, a2: int, c1: int, c2: int, p1: int, p2: int)
    ensures
        (a1 * c1 + a2 * c2) * (p1 * c2 - p2 * c1) + (p1 * c1 + p2 * c2) * (c1 * a2 - c2 * a1) + (c1
            * c1 + c2 * c2) * (a1 * p2 - a2 * p1) == 0,
{
    lemma_expand(a1 * c1, a2 * c2, p1 * c2, p2 * c1);
    lemma_expand(p1 * c1, p2 * c2, c1 * a2, c2 * a1);
    lemma_expand(c1 * c1, c2 * c2, a1 * p2, a2 * p1);
    // each monomial in the order a, p, c, c
    lemma_regroup(a1, c1, p1, c2);
    lemma_regroup(a1, c1, p2, c1);
    lemma_regroup(a2, c2, p1, c2);
    lemma_regroup(a2, c2, p2, c1);
    lemma_regroup(p1, c1, c1, a2);
    lemma_regroup(p1, c1, c2, a1);
    lemma_regroup(p2, c2, c1, a2);
    lemma_regroup(p2, c2, c2, a1);
    lemma_regroup(c1, c1, a1, p2);
    lemma_regroup(c1, c1, a2, p1);
    lemma_regroup(c2, c2, a1, p2);
    lemma_regroup(c2, c2, a2, p1);
    assert((a1 * c1) * (p1 * c2) == a1 * (p1 * (c1 * c2)));
    assert((p1 * c1) * (c2 * a1) == a1 * (p1 * (c1 * c2)));
    assert((a1 * c1) * (p2 * c1) == a1 * (p2 * (c1 * c1)));
    assert((c1 * c1) * (a1 * p2) == a1 * (p2 * (c1 * c1)));
    assert((a2 * c2) * (p1 * c2) == a2 * (p1 * (c2 * c2)));
    assert((c2 * c2) * (a2 * p1) == a2 * (p1 * (c2 * c2)));
    assert((a2 * c2) * (p2 * c1) == a2 * (p2 * (c2 * c1)));
    assert((p2 * c2) * (c1 * a2) == a2 * (p2 * (c2 * c1)));
    assert((p1 * c1) * (c1 * a2) == a2 * (p1 * (c1 * c1)));
    assert((c1 * c1) * (a2 * p1) == a2 * (p1 * (c1 * c1)));
    assert((p2 * c2) * (c2 * a1) == a1 * (p2 * (c2 * c2)));
    assert((c2 * c2) * (a1 * p2) == a1 * (p2 * (c2 * c2)));
}

/// With the shared vertex `b` of the edge moved to the origin, the angle-sum
/// quantity of `flip_not_required` is a sum of three products; when `p` lies
/// in the wedge behind `b` every product is nonnegative and the first positive.
proof fn lemma_behind_vertex(
    a1: int,
    a2: int,
    c1: int,
    c2: int,
    p1: int,
    p2: int,
)
    requires
        p1 * c2 - p2 * c1 > 0,
        a1 * p2 - a2 * p1 >= 0,
        c1 * a2 - c2 * a1 > 0,
    ensures
        (p1 * c2 - p2 * c1) * ((a1 * a1 + a2 * a2) - (a1 * c1 + a2 * c2)) + ((p1 * p1 + p2 * p2) - (
        p1 * c1 + p2 * c2)) * (c1 * a2 - c2 * a1) > 0,
{
    let x = p1 * c2 - p2 * c1;
    let y = a1 * p2 - a2 * p1;
    let k = c1 * a2 - c2 * a1;
    let aa = a1 * a1 + a2 * a2;
    let cc = c1 * c1 + c2 * c2;
    let pp = p1 * p1 + p2 * p2;
    let ac = a1 * c1 + a2 * c2;
    let pc = p1 * c1 + p2 * c2;
    lemma_dot_cross_identity(a1, a2, c1, c2, p1, p2);
    assert(x * (aa - ac) + (pp - pc) * k == aa * x + cc * y + pp * k) by (nonlinear_arith)
        requires
            ac * x + pc * k + cc * y == 0,
    ;
    assert(aa > 0) by (nonlinear_arith)
        requires
            aa == a1 * a1 + a2 * a2,
            k == c1 * a2 - c2 * a1,
            k > 0,
    ;
    assert(cc >= 0 && pp >= 0) by (nonlinear_arith)
        requires
            cc == c1 * c1 + c2 * c2,
            pp == p1 * p1 + p2 * p2,
    ;
    assert(aa * x > 0) by (nonlinear_arith)
        requires
            aa > 0,
            x > 0,
    ;
    assert(cc * y >= 0) by (nonlinear_arith)
        requires
            cc >= 0,
            y >= 0,
    ;
    assert(pp * k >= 0) by (nonlinear_arith)
        requires
            pp >= 0,
            k > 0,
    ;
}

/// If the pair `a, b, c` and `p, c, b` (both clockwise) fails the angle-sum
/// test, then `p` lies strictly inside the angle of `a` at `b c`: the swapped
/// triangles `a, b, p` and `p, c, a` are clockwise too.
pub proof fn lemma_flip_keeps_orientation(p: IntPoint, a: IntPoint, b: IntPoint, c: IntPoint)
    requires
        area_two(a, b, c) < 0,
        area_two(p, c, b) < 0,
        !flip_not_required(p, a, b, c),
    ensures
        area_two(a, b, p) < 0,
        area_two(p, c, a) < 0,
{
    let cos_a = dot_at(p, b, c);
    let cos_b = dot_at(a, b, c);
    let sn_a = abs(cross_at(p, b, c));
    let sn_b = abs(cross_at(a, b, c));
    assert(cross_at(p, b, c) == area_two(p, c, b));
    assert(cross_at(a, b, c) == -area_two(a, b, c)) by (nonlinear_arith);
    assert(sn_a > 0 && sn_b > 0);
    if area_two(a, b, p) >= 0 {
        let (a1, a2) = (a.x - b.x, a.y - b.y);
        let (c1, c2) = (c.x - b.x, c.y - b.y);
        let (p1, p2) = (p.x - b.x, p.y - b.y);
        assert(area_two(a, b, p) == a1 * p2 - a2 * p1) by (nonlinear_arith)
            requires
                a1 == a.x - b.x,
                a2 == a.y - b.y,
                p1 == p.x - b.x,
                p2 == p.y - b.y,
        ;
        assert(sn_a == p1 * c2 - p2 * c1) by (nonlinear_arith)
            requires
                sn_a == -cross_at(p, b, c),
                c1 == c.x - b.x,
                c2 == c.y - b.y,
                p1 == p.x - b.x,
                p2 == p.y - b.y,
        ;
        assert(sn_b == c1 * a2 - c2 * a1) by (nonlinear_arith)
            requires
                sn_b == cross_at(a, b, c),
                a1 == a.x - b.x,
                a2 == a.y - b.y,
                c1 == c.x - b.x,
                c2 == c.y - b.y,
        ;
        assert(cos_a == (p1 * p1 + p2 * p2) - (p1 * c1 + p2 * c2)) by (nonlinear_arith)
            requires
                cos_a == dot_at(p, b, c),
                c1 == c.x - b.x,
                c2 == c.y - b.y,
                p1 == p.x - b.x,
                p2 == p.y - b.y,
        ;
        assert(cos_b == (a1 * a1 + a2 * a2) - (a1 * c1 + a2 * c2)) by (nonlinear_arith)
            requires
                cos_b == dot_at(a, b, c),
                a1 == a.x - b.x,
                a2 == a.y - b.y,
                c1 == c.x - b.x,
                c2 == c.y - b.y,
        ;
        lemma_behind_vertex(a1, a2, c1, c2, p1, p2);
        assert(sn_a * cos_b + cos_a * sn_b > 0);
        if cos_a < 0 && cos_b < 0 {
            assert(sn_a * cos_b + cos_a * sn_b < 0) by (nonlinear_arith)
                requires
                    sn_a > 0,
                    sn_b > 0,
                    cos_a < 0,
                    cos_b < 0,
            ;
        }
    }
    if area_two(p, c, a) >= 0 {
        // the mirror image of the case above, with `c` at the origin
        let (a1, a2) = (a.x - c.x, -(a.y - c.y));
        let (b1, b2) = (b.x - c.x, -(b.y - c.y));
        let (p1, p2) = (p.x - c.x, -(p.y - c.y));
        assert(area_two(p, c, a) == a1 * p2 - a2 * p1) by (nonlinear_arith)
            requires
                a1 == a.x - c.x,
                a2 == -(a.y - c.y),
                p1 == p.x - c.x,
                p2 == -(p.y - c.y),
        ;
        assert(sn_a == p1 * b2 - p2 * b1) by (nonlinear_arith)
            requires
                sn_a == -cross_at(p, b, c),
                b1 == b.x - c.x,
                b2 == -(b.y - c.y),
                p1 == p.x - c.x,
                p2 == -(p.y - c.y),
        ;
        assert(sn_b == b1 * a2 - b2 * a1) by (nonlinear_arith)
            requires
                sn_b == cross_at(a, b, c),
                a1 == a.x - c.x,
                a2 == -(a.y - c.y),
                b1 == b.x - c.x,
                b2 == -(b.y - c.y),
        ;
        assert(cos_a == (p1 * p1 + p2 * p2) - (p1 * b1 + p2 * b2)) by (nonlinear_arith)
            requires
                cos_a == dot_at(p, b, c),
                b1 == b.x - c.x,
                b2 == -(b.y - c.y),
                p1 == p.x - c.x,
                p2 == -(p.y - c.y),
        ;
        assert(cos_b == (a1 * a1 + a2 * a2) - (a1 * b1 + a2 * b2)) by (nonlinear_arith)
            requires
                cos_b == dot_at(a, b, c),
                a1 == a.x - c.x,
                a2 == -(a.y - c.y),
                b1 == b.x - c.x,
                b2 == -(b.y - c.y),
        ;
        lemma_behind_vertex(a1, a2, b1, b2, p1, p2);
        assert(sn_a * cos_b + cos_a * sn_b > 0);
        if cos_a < 0 && cos_b < 0 {
            assert(sn_a * cos_b + cos_a * sn_b < 0) by (nonlinear_arith)
                requires
                    sn_a > 0,
                    sn_b > 0,
                    cos_a < 0,
                    cos_b < 0,
            ;
        }
    }
}


/// With `b` moved to the origin, the angle-sum test for the clockwise pair
/// `a, b, c` and `p, c, b` passes exactly when
/// `|a|^2 (p x c) + |c|^2 (a x p) + |p|^2 (c x a)` is not negative.
pub proof fn lemma_test_sign(p: IntPoint, a: IntPoint, b: IntPoint, c: IntPoint)
    requires
        area_two(a, b, c) < 0,
        area_two(p, c, b) < 0,
    ensures
        flip_not_required(p, a, b, c) <==> ({
            let (a1, a2) = (a.x - b.x, a.y - b.y);
            let (c1, c2) = (c.x - b.x, c.y - b.y);
            let (p1, p2) = (p.x - b.x, p.y - b.y);
            (a1 * a1 + a2 * a2) * (p1 * c2 - p2 * c1) + (c1 * c1 + c2 * c2) * (a1 * p2 - a2 * p1) + (p1 * p1
                + p2 * p2) * (c1 * a2 - c2 * a1) >= 0
        }),
{
    let cos_a = dot_at(p, b, c);
    let cos_b = dot_at(a, b, c);
    let sn_a = abs(cross_at(p, b, c));
    let sn_b = abs(cross_at(a, b, c));
    assert(cross_at(p, b, c) == area_two(p, c, b));
    assert(cross_at(a, b, c) == -area_two(a, b, c)) by (nonlinear_arith);
    let (a1, a2) = (a.x - b.x, a.y - b.y);
    let (c1, c2) = (c.x - b.x, c.y - b.y);
    let (p1, p2) = (p.x - b.x, p.y - b.y);
    let x = p1 * c2 - p2 * c1;
    let y = a1 * p2 - a2 * p1;
    let k = c1 * a2 - c2 * a1;
    let aa = a1 * a1 + a2 * a2;
    let cc = c1 * c1 + c2 * c2;
    let pp = p1 * p1 + p2 * p2;
    let ac = a1 * c1 + a2 * c2;
    let pc = p1 * c1 + p2 * c2;
    assert(sn_a == x) by (nonlinear_arith)
        requires
            sn_a == -cross_at(p, b, c),
            x == p1 * c2 - p2 * c1,
            c1 == c.x - b.x,
            c2 == c.y - b.y,
            p1 == p.x - b.x,
            p2 == p.y - b.y,
    ;
    assert(sn_b == k) by (nonlinear_arith)
        requires
            sn_b == cross_at(a, b, c),
            k == c1 * a2 - c2 * a1,
            a1 == a.x - b.x,
            a2 == a.y - b.y,
            c1 == c.x - b.x,
            c2 == c.y - b.y,
    ;
    assert(cos_a == pp - pc) by (nonlinear_arith)
        requires
            cos_a == dot_at(p, b, c),
            pp == p1 * p1 + p2 * p2,
            pc == p1 * c1 + p2 * c2,
            c1 == c.x - b.x,
            c2 == c.y - b.y,
            p1 == p.x - b.x,
            p2 == p.y - b.y,
    ;
    assert(cos_b == aa - ac) by (nonlinear_arith)
        requires
            cos_b == dot_at(a, b, c),
            aa == a1 * a1 + a2 * a2,
            ac == a1 * c1 + a2 * c2,
            a1 == a.x - b.x,
            a2 == a.y - b.y,
            c1 == c.x - b.x,
            c2 == c.y - b.y,
    ;
    if cos_a < 0 && cos_b < 0 {
        assert(sn_a * cos_b + cos_a * sn_b < 0) by (nonlinear_arith)
            requires
                sn_a > 0,
                sn_b > 0,
                cos_a < 0,
                cos_b < 0,
        ;
    }
    assert(flip_not_required(p, a, b, c) <==> sn_a * cos_b + cos_a * sn_b >= 0);
    lemma_dot_cross_identity(a1, a2, c1, c2, p1, p2);
    assert(x * (aa - ac) + (pp - pc) * k == aa * x + cc * y + pp * k) by (nonlinear_arith)
        requires
            ac * x + pc * k + cc * y == 0,
    ;
}


/// The in-circle quantity of `p` against the circle through `a`, `b`, `c`,
/// computed with `b` at the origin: zero exactly when the four points lie on
/// one circle (or line).
pub open spec fn in_circle(p: IntPoint, a: IntPoint, b: IntPoint, c: IntPoint) -> int {
    let (a1, a2) = (a.x - b.x, a.y - b.y);
    let (c1, c2) = (c.x - b.x, c.y - b.y);
    let (p1, p2) = (p.x - b.x, p.y - b.y);
    (a1 * a1 + a2 * a2) * (p1 * c2 - p2 * c1) + (c1 * c1 + c2 * c2) * (a1 * p2 - a2 * p1) + (p1 * p1 + p2 * p2)
        * (c1 * a2 - c2 * a1)
}

/// Tie-break: for a clockwise pair whose four points lie on one circle, the
/// angle-sum test passes, so no flip is made.
pub proof fn lemma_cocircular_no_flip(p: IntPoint, a: IntPoint, b: IntPoint, c: IntPoint)
    requires
        area_two(a, b, c) < 0,
        area_two(p, c, b) < 0,
        in_circle(p, a, b, c) == 0,
    ensures
        flip_not_required(p, a, b, c),
{
    lemma_test_sign(p, a, b, c);
}

} // verus!
