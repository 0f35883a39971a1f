use slicey::fixed::COORD_MAX;
use slicey::geometry::ray::RayIntersection;
use slicey::geometry::{Face, STLMesh, Triangle, Vertex};

const H: i64 = 500_000;

fn v(x: i64, y: i64, z: i64) -> Vertex {
    Vertex { x, y, z }
}

fn cube_vertices(h: i64) -> Vec<Vertex> {
    vec![
        v(-h, -h, -h),
        v(h, -h, -h),
        v(h, h, -h),
        v(-h, h, -h),
        v(-h, -h, h),
        v(h, -h, h),
        v(h, h, h),
        v(-h, h, h),
    ]
}

fn cube_faces() -> Vec<Face> {
    vec![
        Face { a: 0, b: 2, c: 1 },
        Face { a: 0, b: 3, c: 2 },
        Face { a: 4, b: 5, c: 6 },
        Face { a: 4, b: 6, c: 7 },
        Face { a: 0, b: 1, c: 5 },
        Face { a: 0, b: 5, c: 4 },
        Face { a: 2, b: 3, c: 7 },
        Face { a: 2, b: 7, c: 6 },
        Face { a: 0, b: 4, c: 7 },
        Face { a: 0, b: 7, c: 3 },
        Face { a: 1, b: 2, c: 6 },
        Face { a: 1, b: 6, c: 5 },
    ]
}

fn unit_cube() -> STLMesh {
    STLMesh::new("cube.stl".to_string(), cube_vertices(H), cube_faces()).unwrap()
}

#[test]
fn the_centre_of_the_unit_cube_is_inside() {
    assert!(unit_cube().is_inside(v(0, 0, 0)));
}

#[test]
fn a_point_two_away_is_outside() {
    assert!(!unit_cube().is_inside(v(2_000_000, 2_000_000, 0)));
}

#[test]
fn a_ray_through_the_diagonal_of_a_face_counts_one_crossing() {
    // From the centre the ray leaves through the edge that the two triangles
    // of the face at x = 0.5 share.
    let m = unit_cube();
    let near = m.triangles()[10];
    let far = m.triangles()[11];
    let origin = v(0, 0, 0);
    assert!(near.ray_intersection(origin) != far.ray_intersection(origin));
    let hits = m.triangles().iter().filter(|t| t.ray_intersection(origin)).count();
    assert_eq!(hits, 1);
}

#[test]
fn points_on_the_diagonal_plane_are_decided_one_by_one() {
    let m = unit_cube();
    for k in -4..5 {
        let d = k * 100_000;
        assert!(m.is_inside(v(0, d, d)), "inside at {}", d);
        assert!(m.is_inside(v(-400_000, d, d)), "inside at {}", d);
        assert!(!m.is_inside(v(600_000, d, d)), "beyond at {}", d);
        assert!(!m.is_inside(v(-600_000, d, d)), "before at {}", d);
    }
}

#[test]
fn a_grid_of_points_is_inside_exactly_within_the_cube() {
    let m = unit_cube();
    for i in -7..8 {
        for j in -7..8 {
            for k in -7..8 {
                let q = v(i * 100_000 + 1, j * 100_000 + 3, k * 100_000 + 7);
                let within = q.x.abs() < H && q.y.abs() < H && q.z.abs() < H;
                assert_eq!(m.is_inside(q), within, "at {:?}", q);
            }
        }
    }
}

#[test]
fn rays_that_graze_edges_and_corners_do_not_count_twice() {
    let m = unit_cube();
    // Rays in the planes of the faces' edges, started outside: never inside.
    for s in [-H, 0, H] {
        for t in [-H, 0, H] {
            assert!(!m.is_inside(v(-900_000, s, t)), "from before at {} {}", s, t);
            assert!(!m.is_inside(v(900_000, s, t)), "from beyond at {} {}", s, t);
        }
    }
    // Started inside, through the middle of an edge of the far face.
    assert!(m.is_inside(v(0, 0, 100_000)));
    assert!(m.is_inside(v(0, 100_000, 0)));
    assert!(m.is_inside(v(100_000, 300_000, 300_000)));
}

#[test]
fn a_point_beyond_the_coordinate_range_is_outside() {
    let m = unit_cube();
    assert!(!m.is_inside(v(COORD_MAX + 1, 0, 0)));
    assert!(!m.is_inside(v(0, i64::MIN, 0)));
    assert!(!m.is_inside(v(0, 0, i64::MAX)));
}

#[test]
fn the_largest_cube_is_tested_without_overflow() {
    let m = STLMesh::new("big.stl".to_string(), cube_vertices(COORD_MAX), cube_faces()).unwrap();
    assert!(m.is_inside(v(0, 0, 0)));
    assert!(m.is_inside(v(COORD_MAX - 1, 1 - COORD_MAX, COORD_MAX - 1)));
    assert!(m.is_inside(v(1 - COORD_MAX, COORD_MAX - 1, 1 - COORD_MAX)));
}

#[test]
fn an_empty_mesh_encloses_nothing() {
    let m = STLMesh::new("empty.stl".to_string(), vec![], vec![]).unwrap();
    assert!(!m.is_inside(v(0, 0, 0)));
}

#[test]
fn a_triangle_is_crossed_only_ahead_of_the_point() {
    let t = Triangle { a: v(10, -10, -10), b: v(10, 10, -10), c: v(10, 0, 10) };
    assert!(t.ray_intersection(v(0, 0, 0)));
    assert!(t.ray_intersection(v(9, 0, 0)));
    assert!(!t.ray_intersection(v(10, 0, 0)));
    assert!(!t.ray_intersection(v(11, 0, 0)));
    assert!(!t.ray_intersection(v(0, 0, 11)));
    assert!(!t.ray_intersection(v(0, 11, 0)));
    // the other winding is crossed just the same
    let back = Triangle { a: t.a, b: t.c, c: t.b };
    assert!(back.ray_intersection(v(0, 0, 0)));
    assert!(!back.ray_intersection(v(11, 0, 0)));
}

#[test]
fn a_triangle_seen_edge_on_is_not_crossed() {
    let t = Triangle { a: v(0, 0, 0), b: v(10, 0, 0), c: v(5, 0, 10) };
    assert!(!t.ray_intersection(v(-5, 1, 5)));
    assert!(!t.ray_intersection(v(-5, -1, 5)));
}
