use slicey::fixed::ONE;
use slicey::geometry::{Edge, Face, Point, STLMesh, Triangle, Vertex};
use slicey::slicer::section::{cross_section, triangle_section, Section, PLANE_TOLERANCE};

fn v(x: i64, y: i64, z: i64) -> Vertex {
    Vertex { x, y, z }
}

fn p(x: i64, y: i64) -> Point {
    Point { x, y }
}

#[test]
fn triangle_cut_halfway_gives_the_midpoints_of_its_two_crossing_edges() {
    let t = Triangle { a: v(0, 0, 0), b: v(2 * ONE, 0, 2 * ONE), c: v(0, 2 * ONE, 2 * ONE) };
    let s = triangle_section(&t, ONE);
    // The pivot is the one corner below; both edges from it are cut at t = 0.5.
    assert_eq!(s, Section::Crossing(Edge { a: p(0, ONE), b: p(ONE, 0) }));
}

#[test]
fn single_triangle_mesh_yields_exactly_one_segment() {
    let m = STLMesh::new(
        "one.stl".to_string(),
        vec![v(0, 0, 0), v(2 * ONE, 0, 2 * ONE), v(0, 2 * ONE, 2 * ONE)],
        vec![Face { a: 0, b: 1, c: 2 }],
    )
    .unwrap();
    let cut = cross_section(&m, ONE);
    assert_eq!(cut.segments, vec![Edge { a: p(0, ONE), b: p(ONE, 0) }]);
    assert_eq!(cut.ignored_faces, 0);
    assert_eq!(cut.degenerate_triangles, 0);
}

#[test]
fn the_pivot_is_found_wherever_it_stands_in_the_triangle() {
    let low = v(0, 0, 0);
    let hi_b = v(2 * ONE, 0, 2 * ONE);
    let hi_c = v(0, 2 * ONE, 2 * ONE);
    let expected = Section::Crossing(Edge { a: p(0, ONE), b: p(ONE, 0) });
    assert_eq!(triangle_section(&Triangle { a: low, b: hi_b, c: hi_c }, ONE), expected);
    assert_eq!(triangle_section(&Triangle { a: hi_c, b: low, c: hi_b }, ONE), expected);
    assert_eq!(triangle_section(&Triangle { a: hi_b, b: hi_c, c: low }, ONE), expected);
}

#[test]
fn reversing_the_winding_reverses_the_segment() {
    let t = Triangle { a: v(0, 0, 0), b: v(0, 2 * ONE, 2 * ONE), c: v(2 * ONE, 0, 2 * ONE) };
    assert_eq!(
        triangle_section(&t, ONE),
        Section::Crossing(Edge { a: p(ONE, 0), b: p(0, ONE) })
    );
}

#[test]
fn a_pivot_above_keeps_the_order_of_its_edges() {
    let t = Triangle { a: v(0, 0, 4 * ONE), b: v(4 * ONE, 0, 0), c: v(0, 4 * ONE, 0) };
    // Cut a quarter of the way down from the pivot.
    assert_eq!(
        triangle_section(&t, 3 * ONE),
        Section::Crossing(Edge { a: p(ONE, 0), b: p(0, ONE) })
    );
}

#[test]
fn crossings_are_rounded_down() {
    let t = Triangle { a: v(0, 0, 0), b: v(10, -10, 3), c: v(-10, 10, 3) };
    // At z = 2 the cut is two thirds along: 6.67 -> 6 and -6.67 -> -7.
    let s = triangle_section(&t, 2);
    assert_eq!(s, Section::Crossing(Edge { a: p(-7, 6), b: p(6, -7) }));
}

#[test]
fn triangles_on_one_side_are_clear() {
    let t = Triangle { a: v(0, 0, 5), b: v(9, 0, 7), c: v(0, 9, 20) };
    assert_eq!(triangle_section(&t, 0), Section::Clear);
    assert_eq!(triangle_section(&t, 3), Section::Clear);
    assert_eq!(triangle_section(&t, 22), Section::Clear);
    assert_eq!(triangle_section(&t, i64::MAX), Section::Clear);
    assert_eq!(triangle_section(&t, i64::MIN), Section::Clear);
}

#[test]
fn a_triangle_in_the_plane_is_ignored() {
    let t = Triangle { a: v(0, 0, 10), b: v(9, 0, 10), c: v(0, 9, 10) };
    assert_eq!(triangle_section(&t, 10), Section::Coplanar);
    // within the tolerance band
    let near = Triangle { a: v(0, 0, 10), b: v(9, 0, 11), c: v(0, 9, 9) };
    assert_eq!(PLANE_TOLERANCE, 1);
    assert_eq!(triangle_section(&near, 10), Section::Coplanar);
}

#[test]
fn an_edge_in_the_plane_is_the_segment() {
    let t = Triangle { a: v(0, 0, 0), b: v(8, 0, 0), c: v(0, 8, 8) };
    // a and b lie on the plane; the pivot c is above, so the order is kept.
    assert_eq!(triangle_section(&t, 0), Section::Crossing(Edge { a: p(0, 0), b: p(8, 0) }));
}

#[test]
fn a_triangle_touching_with_one_corner_gives_a_point() {
    let t = Triangle { a: v(5, 6, 0), b: v(8, 0, 8), c: v(0, 8, 8) };
    assert_eq!(triangle_section(&t, 0), Section::Crossing(Edge { a: p(5, 6), b: p(5, 6) }));
}

#[test]
fn a_corner_on_the_plane_between_the_others_is_the_pivot() {
    let t = Triangle { a: v(-10, 0, -10), b: v(4, 4, 0), c: v(10, 0, 10) };
    assert_eq!(triangle_section(&t, 0), Section::Crossing(Edge { a: p(4, 4), b: p(4, 4) }));
}

#[test]
fn a_level_edge_where_a_cut_is_due_is_degenerate() {
    // a is on the plane by tolerance, b just above the band: the edge rises by one.
    let t = Triangle { a: v(0, 0, 1), b: v(10, 0, 2), c: v(0, 10, 50) };
    assert_eq!(triangle_section(&t, 0), Section::Degenerate);
    let m = STLMesh::new(
        "flat.stl".to_string(),
        vec![t.a, t.b, t.c],
        vec![Face { a: 0, b: 1, c: 2 }],
    )
    .unwrap();
    let cut = cross_section(&m, 0);
    assert!(cut.segments.is_empty());
    assert_eq!(cut.degenerate_triangles, 1);
    assert_eq!(cut.ignored_faces, 0);
}

#[test]
fn cross_section_keeps_the_order_of_the_triangles_and_counts_the_rest() {
    let vertices = vec![
        v(0, 0, 0),
        v(20, 0, 20),
        v(0, 20, 20),
        v(0, 0, 10),
        v(20, 0, 10),
        v(0, 20, 10),
        v(0, 0, 40),
        v(40, 0, 0),
    ];
    let faces = vec![
        Face { a: 3, b: 4, c: 5 },
        Face { a: 0, b: 1, c: 2 },
        Face { a: 1, b: 2, c: 6 },
        Face { a: 0, b: 2, c: 1 },
    ];
    let m = STLMesh::new("mix.stl".to_string(), vertices, faces).unwrap();
    let cut = cross_section(&m, 10);
    assert_eq!(
        cut.segments,
        vec![Edge { a: p(0, 10), b: p(10, 0) }, Edge { a: p(10, 0), b: p(0, 10) }]
    );
    assert_eq!(cut.ignored_faces, 1);
    assert_eq!(cut.degenerate_triangles, 0);
}

#[test]
fn neighbours_meet_in_the_same_point_on_their_shared_edge() {
    // Two triangles share the edge from s to e; each reaches it from another pivot.
    let s = v(-3, 7, -5);
    let e = v(11, -2, 9);
    let left = Triangle { a: s, b: e, c: v(-20, 0, 9) };
    let right = Triangle { a: e, b: s, c: v(20, 0, -5) };
    for z in -3..8 {
        let l = match triangle_section(&left, z) {
            Section::Crossing(edge) => edge,
            other => panic!("left at {}: {:?}", z, other),
        };
        let r = match triangle_section(&right, z) {
            Section::Crossing(edge) => edge,
            other => panic!("right at {}: {:?}", z, other),
        };
        // left pivots on s (alone below), right pivots on e (alone above)
        assert_eq!(l.b, r.a, "at height {}", z);
    }
}
