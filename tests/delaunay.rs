use i_triangle::{IndexPoint, IntDelaunay, IntPoint, IntTriangle, RawIntTriangulation, TriangleSet, NIL_INDEX};

fn triangle(v: [(usize, IntPoint); 3], neighbors: [usize; 3]) -> IntTriangle {
    IntTriangle {
        vertices: [
            IndexPoint::new(v[0].0, v[0].1),
            IndexPoint::new(v[1].0, v[1].1),
            IndexPoint::new(v[2].0, v[2].1),
        ],
        neighbors,
    }
}

fn path_area_two(path: &[IntPoint]) -> i128 {
    let n = path.len();
    let mut s: i128 = 0;
    for i in 0..n {
        let a = path[i];
        let b = path[(i + 1) % n];
        s += a.x as i128 * b.y as i128 - a.y as i128 * b.x as i128;
    }
    -s
}

#[test]
fn delaunay_test_0() {
    let a = IntPoint::new(0, 4);
    let b = IntPoint::new(-2, 0);
    let c = IntPoint::new(2, 0);
    let p = IntPoint::new(0, -4);

    let is_flip_not_required = IntDelaunay::is_flip_not_required(p, a, b, c);
    assert_eq!(is_flip_not_required, true);
}

#[test]
fn delaunay_test_1() {
    // border case
    let a = IntPoint::new(0, 2);
    let b = IntPoint::new(-2, 0);
    let c = IntPoint::new(2, 0);
    let p = IntPoint::new(0, -2);

    let is_flip_not_required = IntDelaunay::is_flip_not_required(p, a, b, c);
    assert_eq!(is_flip_not_required, true);
}

#[test]
fn delaunay_test_2() {
    let a = IntPoint::new(0, 2);
    let b = IntPoint::new(-2, 0);
    let c = IntPoint::new(2, 0);
    let p = IntPoint::new(0, -1);

    let is_flip_not_required = IntDelaunay::is_flip_not_required(p, a, b, c);
    assert_eq!(is_flip_not_required, false);
}

#[test]
fn delaunay_test_3() {
    let a = IntPoint::new(0, 1);
    let b = IntPoint::new(-2, 0);
    let c = IntPoint::new(2, 0);
    let p = IntPoint::new(0, -1);

    let is_flip_not_required = IntDelaunay::is_flip_not_required(p, a, b, c);
    assert_eq!(is_flip_not_required, false);
}

fn star_mesh() -> IntDelaunay {
    let points = vec![
        IntPoint::new(-3, 3),
        IntPoint::new(-2, -3),
        IntPoint::new(-2, 0),
        IntPoint::new(0, -1),
        IntPoint::new(0, 3),
        IntPoint::new(2, -3),
        IntPoint::new(2, 0),
        IntPoint::new(3, 3),
    ];
    let v = |i: usize| (i, points[i]);
    IntDelaunay {
        triangles: vec![
            triangle([v(4), v(2), v(6)], [1, 3, 2]),
            triangle([v(2), v(3), v(6)], [5, 0, 4]),
            triangle([v(0), v(2), v(4)], [0, usize::MAX, usize::MAX]),
            triangle([v(4), v(6), v(7)], [usize::MAX, usize::MAX, 0]),
            triangle([v(2), v(1), v(3)], [usize::MAX, 1, usize::MAX]),
            triangle([v(3), v(5), v(6)], [usize::MAX, 1, usize::MAX]),
        ],
        points,
    }
}

#[test]
fn delaunay_test_4() {
    let mut delaunay = star_mesh();
    assert_eq!(delaunay.validate(), Ok(()));

    let is_swapped = delaunay.swap_triangles(0, 1);
    assert!(is_swapped);
    assert_eq!(delaunay.validate(), Ok(()));
}

#[test]
fn delaunay_test_5() {
    let path = [
        IntPoint::new(4, 2),
        IntPoint::new(-4, 4),
        IntPoint::new(-1, 0),
        IntPoint::new(0, -1),
        IntPoint::new(4, -4),
    ];
    let shape_area = path_area_two(&path);
    let v = |i: usize| (i, path[i]);
    let raw = RawIntTriangulation {
        triangles: vec![
            triangle([v(0), v(1), v(2)], [NIL_INDEX, 1, NIL_INDEX]),
            triangle([v(0), v(2), v(3)], [NIL_INDEX, 2, 0]),
            triangle([v(0), v(3), v(4)], [NIL_INDEX, NIL_INDEX, 1]),
        ],
        points: path.to_vec(),
    };

    let delaunay = raw.into_delaunay().unwrap();
    assert_eq!(delaunay.validate(), Ok(()));

    assert_eq!(delaunay.area(), shape_area);
    assert_eq!(shape_area, -57);
}

#[test]
fn swap_keeps_area_and_moves_diagonal() {
    let mut delaunay = star_mesh();
    let before = delaunay.area();
    assert!(delaunay.swap_triangles(0, 1));
    assert_eq!(delaunay.area(), before);
    // triangle 0 keeps a and b and takes p in place of c
    let t0 = delaunay.triangles[0];
    assert_eq!(t0.vertices[0].index, 4);
    assert_eq!(t0.vertices[1].index, 2);
    assert_eq!(t0.vertices[2].index, 3);
    assert_eq!(t0.neighbors, [4, 1, 2]);
    let t1 = delaunay.triangles[1];
    assert_eq!(t1.vertices[0].index, 4);
    assert_eq!(t1.vertices[1].index, 3);
    assert_eq!(t1.vertices[2].index, 6);
    assert_eq!(t1.neighbors, [5, 3, 0]);
    // the outer triangles now name their new owner
    assert_eq!(delaunay.triangles[3].neighbors, [usize::MAX, usize::MAX, 1]);
    assert_eq!(delaunay.triangles[4].neighbors, [usize::MAX, 0, usize::MAX]);
    // the new pair needs no flip: swapping again does nothing
    let snapshot = delaunay.triangles.clone();
    assert!(!delaunay.swap_triangles(0, 1));
    assert_eq!(delaunay.triangles, snapshot);
}

#[test]
fn build_is_idempotent() {
    let mut delaunay = star_mesh();
    delaunay.build();
    let snapshot = delaunay.triangles.clone();
    delaunay.build();
    assert_eq!(delaunay.triangles, snapshot);
}

#[test]
fn area_exact_value() {
    let delaunay = star_mesh();
    let expected: i128 = delaunay
        .triangles
        .iter()
        .map(|t| {
            let a = t.vertices[0].point;
            let b = t.vertices[1].point;
            let c = t.vertices[2].point;
            (c.x as i128 - a.x as i128) * (b.y as i128 - a.y as i128)
                - (c.y as i128 - a.y as i128) * (b.x as i128 - a.x as i128)
        })
        .sum();
    assert_eq!(delaunay.area(), expected);
    assert_eq!(delaunay.area(), -46);
}

#[test]
fn predicate_obtuse_both_sides() {
    // both angles obtuse: the sum exceeds 180 degrees
    let a = IntPoint::new(0, 1);
    let b = IntPoint::new(-4, 0);
    let c = IntPoint::new(4, 0);
    let p = IntPoint::new(0, -1);
    assert!(!IntDelaunay::is_flip_not_required(p, a, b, c));
}

#[test]
fn predicate_far_apex() {
    let a = IntPoint::new(0, 1);
    let b = IntPoint::new(-4, 0);
    let c = IntPoint::new(4, 0);
    let p = IntPoint::new(0, -100);
    assert!(IntDelaunay::is_flip_not_required(p, a, b, c));
}

#[test]
fn predicate_largest_coordinates() {
    let m = 1_073_741_823;
    let a = IntPoint::new(0, m);
    let b = IntPoint::new(-m, 0);
    let c = IntPoint::new(m, 0);
    let p = IntPoint::new(0, -m);
    // co-circular: no flip
    assert!(IntDelaunay::is_flip_not_required(p, a, b, c));
    let p_in = IntPoint::new(0, -m + 1);
    assert!(!IntDelaunay::is_flip_not_required(p_in, a, b, c));
}

#[test]
fn fix_triangles_refines_from_the_buffer() {
    let mut delaunay = star_mesh();
    let area = delaunay.area();
    let mut buffer = vec![0];
    let mut unchecked = TriangleSet::new(delaunay.triangles.len());
    delaunay.fix_triangles(&mut buffer, &mut unchecked);
    assert!(buffer.is_empty());
    assert_eq!(delaunay.validate(), Ok(()));
    assert_eq!(delaunay.area(), area);
    assert_eq!(delaunay.triangles[0].vertices[2].index, 3);
    let snapshot = delaunay.triangles.clone();
    delaunay.build();
    assert_eq!(delaunay.triangles, snapshot);
}
