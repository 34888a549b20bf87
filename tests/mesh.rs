use i_triangle::{
    convex_polygons, on_select_mode, triangulation, Delaunay, DelaunayError, IndexPoint, IntDelaunay, IntPoint, IntTriangle, ModeOption,
    RawIntTriangulation, TriangleMessage, TriangleSet, NIL_INDEX,
};

fn tri(v: [(usize, IntPoint); 3], neighbors: [usize; 3]) -> IntTriangle {
    IntTriangle {
        vertices: [
            IndexPoint::new(v[0].0, v[0].1),
            IndexPoint::new(v[1].0, v[1].1),
            IndexPoint::new(v[2].0, v[2].1),
        ],
        neighbors,
    }
}

/// The unit square 0 (0,0), 1 (4,0), 2 (4,4), 3 (0,4), cut along 0-2.
fn square() -> IntDelaunay {
    let points = vec![IntPoint::new(0, 0), IntPoint::new(4, 0), IntPoint::new(4, 4), IntPoint::new(0, 4)];
    let v = |i: usize| (i, points[i]);
    IntDelaunay {
        triangles: vec![
            tri([v(0), v(1), v(2)], [NIL_INDEX, 1, NIL_INDEX]),
            tri([v(0), v(2), v(3)], [NIL_INDEX, NIL_INDEX, 0]),
        ],
        points,
    }
}

#[test]
fn square_is_valid() {
    assert_eq!(square().validate(), Ok(()));
    assert_eq!(square().area(), -32);
}

#[test]
fn validate_bad_vertex_index() {
    let mut mesh = square();
    mesh.triangles[1].vertices[2].index = 7;
    assert_eq!(mesh.validate(), Err(DelaunayError::BadVertex));
}

#[test]
fn validate_vertex_with_other_point() {
    let mut mesh = square();
    mesh.triangles[0].vertices[1].point = IntPoint::new(5, 0);
    assert_eq!(mesh.validate(), Err(DelaunayError::BadVertex));
}

#[test]
fn validate_point_out_of_range() {
    let mut mesh = square();
    let far = IntPoint::new(1_073_741_824, 0);
    mesh.points[1] = far;
    mesh.triangles[0].vertices[1].point = far;
    assert_eq!(mesh.validate(), Err(DelaunayError::PointOutOfRange));
}

#[test]
fn validate_not_clockwise() {
    let mut mesh = square();
    mesh.triangles[0].vertices.swap(1, 2);
    assert_eq!(mesh.validate(), Err(DelaunayError::NotClockwise));
}

#[test]
fn validate_broken_link() {
    let mut mesh = square();
    mesh.triangles[1].neighbors[2] = NIL_INDEX;
    assert_eq!(mesh.validate(), Err(DelaunayError::BrokenLink));

    let mut dangling = square();
    dangling.triangles[0].neighbors[0] = 5;
    assert_eq!(dangling.validate(), Err(DelaunayError::BrokenLink));
}

#[test]
fn validate_repeated_neighbor_is_a_broken_link() {
    // two triangles glued along two edges: the second slot naming the same
    // neighbor cannot agree on the shared edge
    let points = vec![IntPoint::new(0, 0), IntPoint::new(4, 0), IntPoint::new(0, 4)];
    let v = |i: usize| (i, points[i]);
    let mesh = IntDelaunay {
        triangles: vec![tri([v(0), v(1), v(2)], [1, 1, NIL_INDEX]), tri([v(0), v(2), v(1)], [0, NIL_INDEX, NIL_INDEX])],
        points,
    };
    assert_eq!(mesh.validate(), Err(DelaunayError::BrokenLink));
}

#[test]
fn into_delaunay_rejects_bad_mesh() {
    let mut mesh = square();
    mesh.triangles[0].vertices.swap(1, 2);
    let raw = RawIntTriangulation { triangles: mesh.triangles, points: mesh.points };
    assert!(matches!(raw.into_delaunay(), Err(DelaunayError::NotClockwise)));
}

#[test]
fn thin_diagonal_is_flipped() {
    // a kite cut along its long diagonal; refinement swaps to the short one
    let points = vec![IntPoint::new(0, 0), IntPoint::new(10, -1), IntPoint::new(20, 0), IntPoint::new(10, 1)];
    let v = |i: usize| (i, points[i]);
    let raw = RawIntTriangulation {
        triangles: vec![
            tri([v(0), v(1), v(2)], [NIL_INDEX, 1, NIL_INDEX]),
            tri([v(0), v(2), v(3)], [NIL_INDEX, NIL_INDEX, 0]),
        ],
        points,
    };
    let d = raw.into_delaunay().unwrap();
    assert_eq!(d.validate(), Ok(()));
    assert_eq!(d.area(), -40);
    for t in d.triangles.iter() {
        let ids: Vec<usize> = t.vertices.iter().map(|v| v.index).collect();
        assert!(ids.contains(&1) && ids.contains(&3));
    }
}

#[test]
fn update_neighbor_replaces_first_match() {
    let mut t = square().triangles[0];
    t.update_neighbor(1, 9);
    assert_eq!(t.neighbors, [NIL_INDEX, 9, NIL_INDEX]);
    let mut u = tri(
        [(0, IntPoint::new(0, 0)), (1, IntPoint::new(1, 0)), (2, IntPoint::new(0, 1))],
        [3, 4, 3],
    );
    u.update_neighbor(3, 5);
    assert_eq!(u.neighbors, [5, 4, 3]);
}

#[test]
fn triangle_set_keeps_each_index_once() {
    let mut set = TriangleSet::new(5);
    set.insert(3);
    set.insert(1);
    set.insert(3);
    set.insert(4);
    set.remove(1);
    let mut buffer = vec![7];
    set.drain_into(&mut buffer);
    buffer.sort();
    assert_eq!(buffer, vec![3, 4, 7]);
    let mut again = Vec::new();
    set.drain_into(&mut again);
    assert!(again.is_empty());
}

#[test]
fn square_merges_into_one_polygon() {
    let mesh = Delaunay::new(square().triangles);
    let polygons = mesh.to_convex_polygons();
    assert_eq!(polygons.len(), 1);
    assert_eq!(
        polygons[0],
        vec![IntPoint::new(0, 0), IntPoint::new(4, 0), IntPoint::new(4, 4), IntPoint::new(0, 4)]
    );
}

#[test]
fn reflex_merge_is_refused() {
    // an arrow head: merging its two triangles would make a reflex corner
    let points = vec![IntPoint::new(0, 0), IntPoint::new(10, 5), IntPoint::new(0, 10), IntPoint::new(3, 5)];
    let v = |i: usize| (i, points[i]);
    let triangles = vec![
        tri([v(0), v(1), v(3)], [NIL_INDEX, NIL_INDEX, NIL_INDEX]),
        tri([v(3), v(1), v(2)], [NIL_INDEX, NIL_INDEX, NIL_INDEX]),
    ];
    let mut triangles = triangles;
    triangles[0].neighbors[0] = 1;
    triangles[1].neighbors[2] = 0;
    let mesh = IntDelaunay { triangles: triangles.clone(), points };
    assert_eq!(mesh.validate(), Ok(()));
    let polygons = Delaunay::new(triangles).to_convex_polygons();
    assert_eq!(polygons.len(), 2);
}

#[test]
fn collinear_merge_is_refused() {
    // merging would leave a straight corner at (4,0): strictly convex output
    // keeps the two triangles apart
    let points = vec![IntPoint::new(0, 0), IntPoint::new(4, 0), IntPoint::new(8, 0), IntPoint::new(4, 4)];
    let v = |i: usize| (i, points[i]);
    let triangles = vec![
        tri([v(0), v(1), v(3)], [1, NIL_INDEX, NIL_INDEX]),
        tri([v(1), v(2), v(3)], [NIL_INDEX, NIL_INDEX, NIL_INDEX]),
    ];
    let mut triangles = triangles;
    triangles[1].neighbors[1] = 0;
    let mesh = IntDelaunay { triangles: triangles.clone(), points };
    assert_eq!(mesh.validate(), Ok(()));
    let polygons = Delaunay::new(triangles).to_convex_polygons();
    assert_eq!(polygons.len(), 2);
}

#[test]
fn flat_triangulation_with_offset() {
    let mesh = Delaunay::new(square().triangles);
    let flat = mesh.to_triangulation(10);
    assert_eq!(flat.indices, vec![10, 11, 12, 10, 12, 13]);
    assert_eq!(flat.points, vec![IntPoint::new(0, 0), IntPoint::new(4, 0), IntPoint::new(4, 4), IntPoint::new(0, 4)]);
}

#[test]
fn flat_triangulation_fills_unused_indices_with_origin() {
    let a = IntPoint::new(1, 1);
    let b = IntPoint::new(5, 1);
    let c = IntPoint::new(1, 5);
    let mesh = Delaunay::new(vec![tri([(0, a), (3, b), (2, c)], [NIL_INDEX; 3])]);
    let flat = mesh.to_triangulation(0);
    assert_eq!(flat.indices, vec![0, 3, 2]);
    assert_eq!(flat.points, vec![a, IntPoint::new(0, 0), c, b]);
}

#[test]
fn empty_mesh() {
    let mesh = Delaunay::new(Vec::new());
    assert!(mesh.to_convex_polygons().is_empty());
    let flat = mesh.to_triangulation(0);
    assert!(flat.indices.is_empty());
    assert_eq!(flat.points, vec![IntPoint::new(0, 0)]);
    let mut d = IntDelaunay { triangles: Vec::new(), points: Vec::new() };
    d.build();
}

#[test]
fn mode_selection() {
    assert_eq!(on_select_mode(ModeOption::Convex), TriangleMessage::ModeSelected(ModeOption::Convex));
    assert_eq!(ModeOption::Raw.label(), "Raw");
    assert_eq!(ModeOption::Delaunay.label(), "Delaunay");
    assert_eq!(ModeOption::Convex.label(), "Convex");
    assert_eq!(ModeOption::Tessellation.label(), "Tessellation");
    assert_eq!(ModeOption::CentroidNet.label(), "CentroidNet");
}

#[test]
fn joined_meshes_shift_their_indices() {
    let a = IntPoint::new(10, 10);
    let b = IntPoint::new(14, 10);
    let c = IntPoint::new(10, 14);
    let meshes = vec![
        Delaunay::new(square().triangles),
        Delaunay::new(vec![tri([(1, a), (2, b), (0, c)], [NIL_INDEX; 3])]),
    ];
    let flat = triangulation(&meshes);
    assert_eq!(flat.indices, vec![0, 1, 2, 0, 2, 3, 5, 6, 4]);
    assert_eq!(
        flat.points,
        vec![IntPoint::new(0, 0), IntPoint::new(4, 0), IntPoint::new(4, 4), IntPoint::new(0, 4), c, a, b]
    );
}

#[test]
fn polygons_of_several_meshes() {
    let a = IntPoint::new(10, 10);
    let b = IntPoint::new(14, 10);
    let c = IntPoint::new(10, 14);
    let meshes = vec![
        Delaunay::new(square().triangles),
        Delaunay::new(vec![tri([(0, a), (1, b), (2, c)], [NIL_INDEX; 3])]),
    ];
    let polygons = convex_polygons(&meshes);
    assert_eq!(polygons.len(), 2);
    assert_eq!(polygons[1], vec![a, b, c]);
}
