use slicey::fixed::{COORD_MAX, ONE};
use slicey::geometry::{BoundingBox, Face, MeshError, STLMesh, Triangle, Vertex};

fn v(x: i64, y: i64, z: i64) -> Vertex {
    Vertex { x, y, z }
}

fn tetrahedron() -> STLMesh {
    let vertices = vec![
        v(0, 0, -ONE),
        v(2 * ONE, 0, ONE),
        v(0, 3 * ONE, 2 * ONE),
        v(-ONE, -ONE, 5 * ONE),
    ];
    let faces = vec![
        Face { a: 0, b: 2, c: 1 },
        Face { a: 0, b: 1, c: 3 },
        Face { a: 1, b: 2, c: 3 },
        Face { a: 0, b: 3, c: 2 },
    ];
    STLMesh::new("tetra.stl".to_string(), vertices, faces).unwrap()
}

#[test]
fn new_keeps_vertices_faces_and_name() {
    let m = tetrahedron();
    assert_eq!(m.file_name(), "tetra.stl");
    assert_eq!(m.vertices().len(), 4);
    assert_eq!(m.faces().len(), 4);
    assert_eq!(m.vertices()[1], v(2 * ONE, 0, ONE));
    assert_eq!(m.faces()[2], Face { a: 1, b: 2, c: 3 });
}

#[test]
fn new_resolves_triangles_from_faces() {
    let m = tetrahedron();
    assert_eq!(m.triangles().len(), 4);
    assert_eq!(
        m.triangles()[0],
        Triangle { a: v(0, 0, -ONE), b: v(0, 3 * ONE, 2 * ONE), c: v(2 * ONE, 0, ONE) }
    );
    assert_eq!(
        m.triangles()[3],
        Triangle { a: v(0, 0, -ONE), b: v(-ONE, -ONE, 5 * ONE), c: v(0, 3 * ONE, 2 * ONE) }
    );
}

#[test]
fn new_rejects_face_with_missing_vertex() {
    let r = STLMesh::new(
        "bad.stl".to_string(),
        vec![v(0, 0, 0), v(1, 0, 0), v(0, 1, 0)],
        vec![Face { a: 0, b: 1, c: 3 }],
    );
    assert_eq!(r.err(), Some(MeshError::ParseError));
}

#[test]
fn new_rejects_vertex_beyond_range() {
    let r = STLMesh::new(
        "far.stl".to_string(),
        vec![v(0, 0, 0), v(COORD_MAX + 1, 0, 0), v(0, 1, 0)],
        vec![Face { a: 0, b: 1, c: 2 }],
    );
    assert_eq!(r.err(), Some(MeshError::OutOfRange));
}

#[test]
fn new_reports_missing_vertex_before_range() {
    let r = STLMesh::new(
        "both.stl".to_string(),
        vec![v(0, 0, -COORD_MAX - 1)],
        vec![Face { a: 0, b: 0, c: 1 }],
    );
    assert_eq!(r.err(), Some(MeshError::ParseError));
}

#[test]
fn new_accepts_vertices_at_the_edge_of_the_range() {
    let r = STLMesh::new(
        "edge.stl".to_string(),
        vec![v(COORD_MAX, -COORD_MAX, 0), v(0, 0, 0), v(1, 1, 1)],
        vec![Face { a: 0, b: 1, c: 2 }],
    );
    assert!(r.is_ok());
}

#[test]
fn new_accepts_faces_that_are_not_manifold() {
    let r = STLMesh::new(
        "loose.stl".to_string(),
        vec![v(0, 0, 0), v(1, 0, 0), v(0, 1, 0)],
        vec![Face { a: 0, b: 1, c: 2 }, Face { a: 0, b: 1, c: 2 }, Face { a: 2, b: 2, c: 2 }],
    );
    assert!(r.is_ok());
}

#[test]
fn triangles_helper_resolves_indices() {
    let vertices = vec![v(1, 2, 3), v(4, 5, 6), v(7, 8, 9)];
    let faces = vec![Face { a: 2, b: 0, c: 1 }];
    let tris = STLMesh::_triangles(&faces, &vertices);
    assert_eq!(tris, vec![Triangle { a: v(7, 8, 9), b: v(1, 2, 3), c: v(4, 5, 6) }]);
}

#[test]
fn bounding_box_takes_min_and_max_per_axis() {
    let m = tetrahedron();
    assert_eq!(
        m.bounding_box(),
        Ok(BoundingBox {
            x_min: -ONE,
            y_min: -ONE,
            z_min: -ONE,
            x_max: 2 * ONE,
            y_max: 3 * ONE,
            z_max: 5 * ONE,
        })
    );
}

#[test]
fn bounding_box_of_one_vertex_is_that_vertex() {
    let m = STLMesh::new("dot.stl".to_string(), vec![v(3, -4, 5)], vec![]).unwrap();
    assert_eq!(
        m.bounding_box(),
        Ok(BoundingBox { x_min: 3, y_min: -4, z_min: 5, x_max: 3, y_max: -4, z_max: 5 })
    );
}

#[test]
fn bounding_box_fails_on_empty_mesh() {
    let m = STLMesh::new("empty.stl".to_string(), vec![], vec![]).unwrap();
    assert_eq!(m.bounding_box(), Err(MeshError::EmptyMesh));
}

#[test]
fn translate_moves_vertices_and_triangles() {
    let mut m = tetrahedron();
    assert_eq!(m.translate(10, -20, 30), Ok(()));
    assert_eq!(m.vertices()[0], v(10, -20, 30 - ONE));
    assert_eq!(m.vertices()[3], v(10 - ONE, -20 - ONE, 30 + 5 * ONE));
    assert_eq!(
        m.triangles()[1],
        Triangle {
            a: v(10, -20, 30 - ONE),
            b: v(10 + 2 * ONE, -20, 30 + ONE),
            c: v(10 - ONE, -20 - ONE, 30 + 5 * ONE),
        }
    );
    assert_eq!(m.faces()[1], Face { a: 0, b: 1, c: 3 });
}

#[test]
fn translate_there_and_back_restores_the_mesh() {
    let mut m = tetrahedron();
    let before_vertices = m.vertices().clone();
    let before_triangles = m.triangles().clone();
    assert_eq!(m.translate(123_456, -7_000_001, 42), Ok(()));
    assert_ne!(m.vertices(), &before_vertices);
    assert_eq!(m.translate(-123_456, 7_000_001, -42), Ok(()));
    assert_eq!(m.vertices(), &before_vertices);
    assert_eq!(m.triangles(), &before_triangles);
}

#[test]
fn translate_moves_the_bounding_box_with_it() {
    let mut m = tetrahedron();
    let bb = m.bounding_box().unwrap();
    m.translate(5, 6, 7).unwrap();
    assert_eq!(
        m.bounding_box(),
        Ok(BoundingBox {
            x_min: bb.x_min + 5,
            y_min: bb.y_min + 6,
            z_min: bb.z_min + 7,
            x_max: bb.x_max + 5,
            y_max: bb.y_max + 6,
            z_max: bb.z_max + 7,
        })
    );
}

#[test]
fn translate_beyond_range_fails_and_changes_nothing() {
    let mut m = tetrahedron();
    let before = m.vertices().clone();
    assert_eq!(m.translate(0, 0, COORD_MAX - 5 * ONE + 1), Err(MeshError::OutOfRange));
    assert_eq!(m.vertices(), &before);
    assert_eq!(m.translate(0, 0, COORD_MAX - 5 * ONE), Ok(()));
    assert_eq!(m.bounding_box().unwrap().z_max, COORD_MAX);
}

#[test]
fn translate_with_extreme_offsets_fails_without_overflow() {
    let mut m = tetrahedron();
    assert_eq!(m.translate(i64::MAX, 0, 0), Err(MeshError::OutOfRange));
    assert_eq!(m.translate(0, i64::MIN, 0), Err(MeshError::OutOfRange));
}

#[test]
fn scale_by_one_is_the_identity() {
    let mut m = tetrahedron();
    let before_vertices = m.vertices().clone();
    let before_triangles = m.triangles().clone();
    assert_eq!(m.scale(ONE, ONE, ONE), Ok(()));
    assert_eq!(m.vertices(), &before_vertices);
    assert_eq!(m.triangles(), &before_triangles);
}

#[test]
fn scale_multiplies_each_axis() {
    let mut m = tetrahedron();
    assert_eq!(m.scale(10 * ONE, 2 * ONE, ONE / 2), Ok(()));
    assert_eq!(m.vertices()[1], v(20 * ONE, 0, ONE / 2));
    assert_eq!(m.vertices()[2], v(0, 6 * ONE, ONE));
    assert_eq!(m.vertices()[3], v(-10 * ONE, -2 * ONE, 5 * ONE / 2));
    assert_eq!(
        m.triangles()[2],
        Triangle {
            a: v(20 * ONE, 0, ONE / 2),
            b: v(0, 6 * ONE, ONE),
            c: v(-10 * ONE, -2 * ONE, 5 * ONE / 2),
        }
    );
}

#[test]
fn scale_scales_the_bounding_box_with_it() {
    let mut m = tetrahedron();
    let bb = m.bounding_box().unwrap();
    m.scale(3 * ONE, ONE / 4, 2 * ONE).unwrap();
    assert_eq!(
        m.bounding_box(),
        Ok(BoundingBox {
            x_min: bb.x_min * 3,
            y_min: bb.y_min / 4,
            z_min: bb.z_min * 2,
            x_max: bb.x_max * 3,
            y_max: bb.y_max / 4,
            z_max: bb.z_max * 2,
        })
    );
}

#[test]
fn scale_rounds_down() {
    let mut m =
        STLMesh::new("odd.stl".to_string(), vec![v(3, -3, 1), v(-1, 7, 0)], vec![]).unwrap();
    // 3 * 0.5 = 1.5 -> 1; -3 * 0.5 = -1.5 -> -2; 1 * 0.5 = 0.5 -> 0
    // -1 * 0.5 = -0.5 -> -1; 7 * 0.5 = 3.5 -> 3
    assert_eq!(m.scale(ONE / 2, ONE / 2, ONE / 2), Ok(()));
    assert_eq!(m.vertices()[0], v(1, -2, 0));
    assert_eq!(m.vertices()[1], v(-1, 3, 0));
}

#[test]
fn scale_by_negative_factor_mirrors() {
    let mut m = tetrahedron();
    assert_eq!(m.scale(-ONE, ONE, ONE), Ok(()));
    assert_eq!(m.vertices()[1], v(-2 * ONE, 0, ONE));
    assert_eq!(m.vertices()[3], v(ONE, -ONE, 5 * ONE));
}

#[test]
fn scale_beyond_range_fails_and_changes_nothing() {
    let mut m = tetrahedron();
    let before = m.vertices().clone();
    assert_eq!(m.scale(ONE, ONE, COORD_MAX), Err(MeshError::OutOfRange));
    assert_eq!(m.vertices(), &before);
    assert_eq!(m.scale(i64::MAX, i64::MIN, i64::MAX), Err(MeshError::OutOfRange));
    assert_eq!(m.vertices(), &before);
}

#[test]
fn home_z_puts_the_lowest_vertex_at_zero() {
    let mut m = tetrahedron();
    assert_eq!(m.home_z(), Ok(()));
    let bb = m.bounding_box().unwrap();
    assert_eq!(bb.z_min, 0);
    assert_eq!(bb.z_max, 6 * ONE);
    assert_eq!(bb.x_min, -ONE);
    assert_eq!(m.vertices()[0], v(0, 0, 0));
    assert_eq!(m.vertices()[2], v(0, 3 * ONE, 3 * ONE));
}

#[test]
fn home_z_twice_is_home_z_once() {
    let mut m = tetrahedron();
    m.home_z().unwrap();
    let once = m.vertices().clone();
    m.home_z().unwrap();
    assert_eq!(m.vertices(), &once);
}

#[test]
fn home_z_fails_on_empty_mesh() {
    let mut m = STLMesh::new("empty.stl".to_string(), vec![], vec![]).unwrap();
    assert_eq!(m.home_z(), Err(MeshError::EmptyMesh));
}

#[test]
fn home_z_fails_when_the_top_would_leave_the_range() {
    let mut m = STLMesh::new(
        "tall.stl".to_string(),
        vec![v(0, 0, -COORD_MAX), v(0, 0, 1)],
        vec![],
    )
    .unwrap();
    let before = m.vertices().clone();
    assert_eq!(m.home_z(), Err(MeshError::OutOfRange));
    assert_eq!(m.vertices(), &before);
    let mut n = STLMesh::new(
        "fits.stl".to_string(),
        vec![v(0, 0, -COORD_MAX), v(0, 0, 0)],
        vec![],
    )
    .unwrap();
    assert_eq!(n.home_z(), Ok(()));
    assert_eq!(n.vertices()[1], v(0, 0, COORD_MAX));
}
