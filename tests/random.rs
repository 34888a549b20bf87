use std::collections::HashMap;
use i_triangle::{Delaunay, IndexPoint, IntDelaunay, IntPoint, IntTriangle, RawIntTriangulation, NIL_INDEX};

struct Lcg(u64);

impl Lcg {
    fn next(&mut self) -> u64 {
        self.0 = self.0.wrapping_mul(6364136223846793005).wrapping_add(1442695040888963407);
        self.0 >> 33
    }

    fn range(&mut self, lo: i32, hi: i32) -> i32 {
        lo + (self.next() % ((hi - lo + 1) as u64)) as i32
    }
}

/// Fills the neighbor slots from the shared edges.
fn link(triangles: &mut Vec<IntTriangle>) {
    let mut owner: HashMap<(usize, usize), usize> = HashMap::new();
    for (m, t) in triangles.iter().enumerate() {
        for k in 0..3 {
            let u = t.vertices[(k + 1) % 3].index;
            let v = t.vertices[(k + 2) % 3].index;
            owner.insert((u, v), m);
        }
    }
    for m in 0..triangles.len() {
        for k in 0..3 {
            let u = triangles[m].vertices[(k + 1) % 3].index;
            let v = triangles[m].vertices[(k + 2) % 3].index;
            triangles[m].neighbors[k] = *owner.get(&(v, u)).unwrap_or(&NIL_INDEX);
        }
    }
}

/// A jittered grid of `w` by `h` cells, each cut along a random diagonal.
fn random_mesh(rng: &mut Lcg, w: usize, h: usize, step: i32, jitter: i32) -> RawIntTriangulation {
    let mut points = Vec::new();
    for j in 0..=h {
        for i in 0..=w {
            let x = i as i32 * step + rng.range(-jitter, jitter);
            let y = j as i32 * step + rng.range(-jitter, jitter);
            points.push(IntPoint::new(x, y));
        }
    }
    let id = |i: usize, j: usize| j * (w + 1) + i;
    let vx = |k: usize| IndexPoint::new(k, points[k]);
    let mut triangles = Vec::new();
    for j in 0..h {
        for i in 0..w {
            let (p00, p10, p01, p11) = (id(i, j), id(i + 1, j), id(i, j + 1), id(i + 1, j + 1));
            let tri = |a: usize, b: usize, c: usize| IntTriangle {
                vertices: [vx(a), vx(b), vx(c)],
                neighbors: [NIL_INDEX; 3],
            };
            if rng.next() % 2 == 0 {
                triangles.push(tri(p00, p10, p11));
                triangles.push(tri(p00, p11, p01));
            } else {
                triangles.push(tri(p00, p10, p01));
                triangles.push(tri(p10, p11, p01));
            }
        }
    }
    link(&mut triangles);
    RawIntTriangulation { triangles, points }
}

fn area_two(a: IntPoint, b: IntPoint, c: IntPoint) -> i128 {
    (c.x as i128 - a.x as i128) * (b.y as i128 - a.y as i128)
        - (c.y as i128 - a.y as i128) * (b.x as i128 - a.x as i128)
}

fn mesh_area(t: &[IntTriangle]) -> i128 {
    t.iter().map(|t| area_two(t.vertices[0].point, t.vertices[1].point, t.vertices[2].point)).sum()
}

/// Every adjacent pair passes the angle-sum test.
fn assert_delaunay(d: &IntDelaunay) {
    for (m, t) in d.triangles.iter().enumerate() {
        for k in 0..3 {
            let n = t.neighbors[k];
            if n == NIL_INDEX {
                continue;
            }
            let other = d.triangles[n];
            let j = other.neighbors.iter().position(|&x| x == m).unwrap();
            let a = t.vertices[k].point;
            let b = t.vertices[(k + 1) % 3].point;
            let c = t.vertices[(k + 2) % 3].point;
            let p = other.vertices[j].point;
            assert!(IntDelaunay::is_flip_not_required(p, a, b, c));
        }
    }
}

fn boundary_edges(t: &[IntTriangle]) -> Vec<(usize, usize)> {
    let mut edges = Vec::new();
    for tri in t.iter() {
        for k in 0..3 {
            if tri.neighbors[k] == NIL_INDEX {
                edges.push((tri.vertices[(k + 1) % 3].index, tri.vertices[(k + 2) % 3].index));
            }
        }
    }
    edges.sort();
    edges
}

fn check_trial(rng: &mut Lcg, w: usize, h: usize, step: i32, jitter: i32) {
    let raw = random_mesh(rng, w, h, step, jitter);
    let area = mesh_area(&raw.triangles);
    let boundary = boundary_edges(&raw.triangles);
    let count = raw.triangles.len();
    let delaunay = raw.into_delaunay().unwrap();
    assert_eq!(delaunay.validate(), Ok(()));
    assert_eq!(delaunay.area(), area);
    assert_eq!(delaunay.triangles.len(), count);
    assert_eq!(boundary_edges(&delaunay.triangles), boundary);
    assert_delaunay(&delaunay);
}

#[test]
fn test_random_0() {
    let mut rng = Lcg(1);
    for _ in 0..100_000 {
        let w = 1 + (rng.next() % 2) as usize;
        let h = 1 + (rng.next() % 2) as usize;
        check_trial(&mut rng, w, h, 20, 2);
    }
}

#[test]
fn test_random_1() {
    let mut rng = Lcg(2);
    for _ in 0..100_000 {
        let w = 1 + (rng.next() % 3) as usize;
        let h = 1 + (rng.next() % 3) as usize;
        check_trial(&mut rng, w, h, 30, 3);
    }
}

#[test]
fn test_random_2() {
    let mut rng = Lcg(3);
    for _ in 0..2_000 {
        let w = 1 + (rng.next() % 10) as usize;
        let h = 1 + (rng.next() % 5) as usize;
        check_trial(&mut rng, w, h, 50, 5);
    }
}

#[test]
fn refined_mesh_is_left_unchanged() {
    let mut rng = Lcg(4);
    for _ in 0..500 {
        let raw = random_mesh(&mut rng, 4, 3, 30, 3);
        let mut delaunay = raw.into_delaunay().unwrap();
        let snapshot = delaunay.triangles.clone();
        delaunay.build();
        assert_eq!(delaunay.triangles, snapshot);
    }
}

fn convex_turns(path: &[IntPoint]) -> bool {
    let n = path.len();
    n >= 3 && (0..n).all(|q| area_two(path[(q + n - 1) % n], path[q], path[(q + 1) % n]) < 0)
}

fn path_area(path: &[IntPoint]) -> i128 {
    let n = path.len();
    let mut s: i128 = 0;
    for i in 0..n {
        let a = path[i];
        let b = path[(i + 1) % n];
        s += a.x as i128 * b.y as i128 - a.y as i128 * b.x as i128;
    }
    -s
}

#[test]
fn convex_polygons_cover_the_mesh() {
    let mut rng = Lcg(5);
    for _ in 0..2_000 {
        let w = 1 + (rng.next() % 4) as usize;
        let h = 1 + (rng.next() % 4) as usize;
        let raw = random_mesh(&mut rng, w, h, 40, 4);
        let delaunay = raw.into_delaunay().unwrap();
        let area = delaunay.area();
        let mut used: Vec<IntPoint> = delaunay
            .triangles
            .iter()
            .flat_map(|t| t.vertices.iter().map(|v| v.point))
            .collect();
        let mesh = Delaunay::new(delaunay.triangles);
        let polygons = mesh.to_convex_polygons();
        assert!(!polygons.is_empty());
        let mut total = 0;
        let mut corners: Vec<IntPoint> = Vec::new();
        for polygon in polygons.iter() {
            assert!(convex_turns(polygon));
            total += path_area(polygon);
            corners.extend(polygon.iter().copied());
        }
        assert_eq!(total, area);
        let key = |p: &IntPoint| (p.x, p.y);
        used.sort_by_key(key);
        used.dedup();
        corners.sort_by_key(key);
        corners.dedup();
        assert_eq!(used, corners);
    }
}

