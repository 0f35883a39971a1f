//! Ray casting against triangles: the test behind point containment.
//!
//! A point is inside a closed mesh when a ray leaving it crosses the surface
//! an odd number of times. The ray used here leaves along the x axis, tilted
//! by an infinitesimal amount towards y and by an infinitesimal amount of
//! that amount towards z. A test that comes out zero for the untilted ray,
//! because the ray meets an edge or a vertex exactly, is thereby decided by
//! the tilt, the same way for both triangles that share the edge.
use vstd::prelude::*;
use crate::fixed::{lemma_product_bound, COORD_MAX};
use crate::geometry::{lemma_resolved_in_range, vertex_in_range, STLMesh, Triangle, Vertex};

verus! {

/// The sign of `v`: -1, 0 or 1.
pub open spec fn sign(v: int) -> int {
    if v > 0 {
        1
    } else if v < 0 {
        -1
    } else {
        0
    }
}

/// The x component of `(a - p) x (b - p)`.
pub open spec fn cross_x(a: Vertex, b: Vertex, p: Vertex) -> int {
    (a.y - p.y) * (b.z - p.z) - (a.z - p.z) * (b.y - p.y)
}

/// The y component of `(a - p) x (b - p)`.
pub open spec fn cross_y(a: Vertex, b: Vertex, p: Vertex) -> int {
    (a.z - p.z) * (b.x - p.x) - (a.x - p.x) * (b.z - p.z)
}

/// The z component of `(a - p) x (b - p)`.
pub open spec fn cross_z(a: Vertex, b: Vertex, p: Vertex) -> int {
    (a.x - p.x) * (b.y - p.y) - (a.y - p.y) * (b.x - p.x)
}

/// On which side of the edge from `a` to `b` the tilted ray from `p` passes:
/// the sign of the first component of `(a - p) x (b - p)` that is not zero,
/// and zero only when `p`, `a` and `b` lie on one line. The x component
/// decides for the ray along x; where the ray meets the edge and that
/// component is zero, the test is made again with the tilt towards y, and
/// then with the tilt towards z.
pub open spec fn edge_side(a: Vertex, b: Vertex, p: Vertex) -> int {
    if cross_x(a, b, p) != 0 {
        sign(cross_x(a, b, p))
    } else if cross_y(a, b, p) != 0 {
        sign(cross_y(a, b, p))
    } else {
        sign(cross_z(a, b, p))
    }
}

/// Six times the signed volume of the tetrahedron `p`, `t.a`, `t.b`, `t.c`:
/// zero exactly when `p` lies in the plane of `t`.
pub open spec fn volume(t: Triangle, p: Vertex) -> int {
    (t.a.x - p.x) * cross_x(t.b, t.c, p) + (t.a.y - p.y) * cross_y(t.b, t.c, p) + (t.a.z - p.z)
        * cross_z(t.b, t.c, p)
}

/// Whether the tilted ray from `p` crosses `t`: it passes on the same side of
/// all three edges, and the triangle's plane lies ahead of `p`, not behind it
/// and not through it.
pub open spec fn ray_hits(t: Triangle, p: Vertex) -> bool {
    let s = edge_side(t.a, t.b, p);
    &&& s != 0
    &&& edge_side(t.b, t.c, p) == s
    &&& edge_side(t.c, t.a, p) == s
    &&& sign(volume(t, p)) == s
}

/// How many of `tris` the tilted ray from `p` crosses.
pub open spec fn hit_count(tris: Seq<Triangle>, p: Vertex) -> nat
    decreases tris.len(),
{
    if tris.len() == 0 {
        0
    } else {
        hit_count(tris.drop_last(), p) + if ray_hits(tris.last(), p) {
            1nat
        } else {
            0nat
        }
    }
}

/// Whether `p` is inside the surface that `tris` form, by the parity of
/// crossings.
pub open spec fn encloses(tris: Seq<Triangle>, p: Vertex) -> bool {
    p.in_range() && hit_count(tris, p) % 2 == 1
}

/// Seen from the other end of an edge, the ray passes on the other side: two
/// triangles that share an edge, and walk it in opposite directions, never
/// both claim or both disclaim a ray on account of that edge.
pub proof fn lemma_edge_side_antisymmetric(a: Vertex, b: Vertex, p: Vertex)
    ensures
        edge_side(b, a, p) == -edge_side(a, b, p),
{
    assert(cross_x(b, a, p) == -cross_x(a, b, p)) by (nonlinear_arith)
        requires
            cross_x(b, a, p) == (b.y - p.y) * (a.z - p.z) - (b.z - p.z) * (a.y - p.y),
            cross_x(a, b, p) == (a.y - p.y) * (b.z - p.z) - (a.z - p.z) * (b.y - p.y),
    ;
    assert(cross_y(b, a, p) == -cross_y(a, b, p)) by (nonlinear_arith)
        requires
            cross_y(b, a, p) == (b.z - p.z) * (a.x - p.x) - (b.x - p.x) * (a.z - p.z),
            cross_y(a, b, p) == (a.z - p.z) * (b.x - p.x) - (a.x - p.x) * (b.z - p.z),
    ;
    assert(cross_z(b, a, p) == -cross_z(a, b, p)) by (nonlinear_arith)
        requires
            cross_z(b, a, p) == (b.x - p.x) * (a.y - p.y) - (b.y - p.y) * (a.x - p.x),
            cross_z(a, b, p) == (a.x - p.x) * (b.y - p.y) - (a.y - p.y) * (b.x - p.x),
    ;
}

/// A product of three factors does not depend on their order.
proof fn lemma_product_of_three(a: int, b: int, c: int)
    ensures
        a * (b * c) == a * (c * b),
        a * (b * c) == b * (c * a),
        a * (b * c) == b * (a * c),
        a * (b * c) == c * (a * b),
        a * (b * c) == c * (b * a),
{
    assert(a * (b * c) == a * (c * b)) by (nonlinear_arith);
    assert(a * (b * c) == b * (c * a)) by (nonlinear_arith);
    assert(a * (b * c) == b * (a * c)) by (nonlinear_arith);
    assert(a * (b * c) == c * (a * b)) by (nonlinear_arith);
    assert(a * (b * c) == c * (b * a)) by (nonlinear_arith);
}

/// A factor times a difference is the difference of the products.
proof fn lemma_times_difference(a: int, x: int, y: int)
    ensures
        a * (x - y) == a * x - a * y,
{
    assert(a * (x - y) == a * x - a * y) by (nonlinear_arith);
}

/// The volume changes sign when two corners are exchanged and stays when the
/// corners are rotated.
pub proof fn lemma_volume_symmetry(t: Triangle, p: Vertex)
    ensures
        volume(Triangle { a: t.a, b: t.c, c: t.b }, p) == -volume(t, p),
        volume(Triangle { a: t.b, b: t.c, c: t.a }, p) == volume(t, p),
{
    let ax = t.a.x - p.x;
    let ay = t.a.y - p.y;
    let az = t.a.z - p.z;
    let bx = t.b.x - p.x;
    let by = t.b.y - p.y;
    let bz = t.b.z - p.z;
    let cx = t.c.x - p.x;
    let cy = t.c.y - p.y;
    let cz = t.c.z - p.z;
    // The six products of one coordinate of each corner.
    let t1 = ax * (by * cz);
    let t2 = ax * (bz * cy);
    let t3 = ay * (bz * cx);
    let t4 = ay * (bx * cz);
    let t5 = az * (bx * cy);
    let t6 = az * (by * cx);
    lemma_times_difference(ax, by * cz, bz * cy);
    lemma_times_difference(ay, bz * cx, bx * cz);
    lemma_times_difference(az, bx * cy, by * cx);
    assert(volume(t, p) == t1 - t2 + t3 - t4 + t5 - t6);
    // Corners b and c exchanged.
    lemma_times_difference(ax, cy * bz, cz * by);
    lemma_times_difference(ay, cz * bx, cx * bz);
    lemma_times_difference(az, cx * by, cy * bx);
    lemma_product_of_three(ax, by, cz);
    lemma_product_of_three(ax, bz, cy);
    lemma_product_of_three(ay, bz, cx);
    lemma_product_of_three(ay, bx, cz);
    lemma_product_of_three(az, bx, cy);
    lemma_product_of_three(az, by, cx);
    assert(volume(Triangle { a: t.a, b: t.c, c: t.b }, p) == t2 - t1 + t4 - t3 + t6 - t5);
    // Corners rotated.
    lemma_times_difference(bx, cy * az, cz * ay);
    lemma_times_difference(by, cz * ax, cx * az);
    lemma_times_difference(bz, cx * ay, cy * ax);
    assert(bx * (cy * az) == t5);
    assert(bx * (cz * ay) == t4);
    assert(by * (cz * ax) == t1);
    assert(by * (cx * az) == t6);
    assert(bz * (cx * ay) == t3);
    assert(bz * (cy * ax) == t2);
    assert(volume(Triangle { a: t.b, b: t.c, c: t.a }, p) == t5 - t4 + t1 - t6 + t3 - t2);
}

/// Whether a ray crosses a triangle does not depend on the order in which the
/// triangle's corners are given: not on which comes first, and not on the
/// winding.
pub proof fn lemma_hit_ignores_corner_order(t: Triangle, p: Vertex)
    ensures
        ray_hits(Triangle { a: t.b, b: t.c, c: t.a }, p) == ray_hits(t, p),
        ray_hits(Triangle { a: t.a, b: t.c, c: t.b }, p) == ray_hits(t, p),
{
    lemma_volume_symmetry(t, p);
    lemma_edge_side_antisymmetric(t.a, t.b, p);
    lemma_edge_side_antisymmetric(t.b, t.c, p);
    lemma_edge_side_antisymmetric(t.c, t.a, p);
}

/// A shape that a ray from a point can be tested against.
pub trait RayIntersection {
    /// Whether the shape's coordinates admit the test.
    spec fn castable(&self) -> bool;

    /// Whether the ray from `point` crosses the shape.
    spec fn crossed_from(&self, point: Vertex) -> bool;

    /// Tests whether the ray from `point` crosses the shape.
    fn ray_intersection(&self, point: Vertex) -> (hit: bool)
        requires
            self.castable(),
            point.in_range(),
        ensures
            hit == self.crossed_from(point),
    ;
}

impl RayIntersection for Triangle {
    open spec fn castable(&self) -> bool {
        self.in_range()
    }

    open spec fn crossed_from(&self, point: Vertex) -> bool {
        ray_hits(*self, point)
    }

    fn ray_intersection(&self, point: Vertex) -> (hit: bool) {
        let s = side_of_edge(self.a, self.b, point);
        if s == 0 {
            return false;
        }
        if side_of_edge(self.b, self.c, point) != s {
            return false;
        }
        if side_of_edge(self.c, self.a, point) != s {
            return false;
        }
        let (cx, cy, cz) = cross(self.b, self.c, point);
        let ux: i128 = self.a.x as i128 - point.x as i128;
        let uy: i128 = self.a.y as i128 - point.y as i128;
        let uz: i128 = self.a.z as i128 - point.z as i128;
        proof {
            let m = 2 * COORD_MAX as int;
            let c = 2 * (m * m);
            lemma_product_bound(ux as int, cx as int, m, c);
            lemma_product_bound(uy as int, cy as int, m, c);
            lemma_product_bound(uz as int, cz as int, m, c);
            assert(m * c == 16_000_000_000_000_000_000_000_000_000_000_000_000)
                by (nonlinear_arith)
                requires
                    m == 2_000_000_000_000,
                    c == 2 * (m * m),
            ;
        }
        let v: i128 = ux * cx + uy * cy + uz * cz;
        let sv: i8 = if v > 0 {
            1
        } else if v < 0 {
            -1
        } else {
            0
        };
        sv == s
    }
}

/// The three components of `(a - p) x (b - p)`.
fn cross(a: Vertex, b: Vertex, p: Vertex) -> (c: (i128, i128, i128))
    requires
        a.in_range(),
        b.in_range(),
        p.in_range(),
    ensures
        c.0 == cross_x(a, b, p),
        c.1 == cross_y(a, b, p),
        c.2 == cross_z(a, b, p),
        -2 * ((2 * COORD_MAX) * (2 * COORD_MAX)) <= c.0 <= 2 * ((2 * COORD_MAX) * (2 * COORD_MAX)),
        -2 * ((2 * COORD_MAX) * (2 * COORD_MAX)) <= c.1 <= 2 * ((2 * COORD_MAX) * (2 * COORD_MAX)),
        -2 * ((2 * COORD_MAX) * (2 * COORD_MAX)) <= c.2 <= 2 * ((2 * COORD_MAX) * (2 * COORD_MAX)),
{
    let ax: i128 = a.x as i128 - p.x as i128;
    let ay: i128 = a.y as i128 - p.y as i128;
    let az: i128 = a.z as i128 - p.z as i128;
    let bx: i128 = b.x as i128 - p.x as i128;
    let by: i128 = b.y as i128 - p.y as i128;
    let bz: i128 = b.z as i128 - p.z as i128;
    proof {
        let m = 2 * COORD_MAX as int;
        lemma_product_bound(ay as int, bz as int, m, m);
        lemma_product_bound(az as int, by as int, m, m);
        lemma_product_bound(az as int, bx as int, m, m);
        lemma_product_bound(ax as int, bz as int, m, m);
        lemma_product_bound(ax as int, by as int, m, m);
        lemma_product_bound(ay as int, bx as int, m, m);
        assert(m * m == 4_000_000_000_000_000_000_000_000) by (nonlinear_arith)
            requires
                m == 2_000_000_000_000,
        ;
    }
    (ay * bz - az * by, az * bx - ax * bz, ax * by - ay * bx)
}

/// On which side of the edge from `a` to `b` the tilted ray from `p` passes.
fn side_of_edge(a: Vertex, b: Vertex, p: Vertex) -> (s: i8)
    requires
        a.in_range(),
        b.in_range(),
        p.in_range(),
    ensures
        s == edge_side(a, b, p),
{
    let (cx, cy, cz) = cross(a, b, p);
    if cx > 0 {
        1
    } else if cx < 0 {
        -1
    } else if cy > 0 {
        1
    } else if cy < 0 {
        -1
    } else if cz > 0 {
        1
    } else if cz < 0 {
        -1
    } else {
        0
    }
}

impl STLMesh {
    /// Whether `point` lies inside the mesh: the tilted ray from it crosses an
    /// odd number of triangles. A point beyond the coordinate range is outside.
    pub fn is_inside(&self, point: Vertex) -> (inside: bool)
        requires
            self.wf(),
        ensures
            inside == encloses(self.triangle_seq(), point),
    {
        if !vertex_in_range(&point) {
            return false;
        }
        let tris = self.triangles();
        let mut count: usize = 0;
        let mut i: usize = 0;
        while i < tris.len()
            invariant
                self.wf(),
                tris@ == self.triangle_seq(),
                point.in_range(),
                i <= tris.len(),
                count <= i,
                count == hit_count(tris@.take(i as int), point),
            decreases tris.len() - i,
        {
            proof {
                lemma_resolved_in_range(self, i as int);
                assert(tris@.take(i + 1).drop_last() =~= tris@.take(i as int));
            }
            if tris[i].ray_intersection(point) {
                count = count + 1;
            }
            i += 1;
        }
        assert(tris@.take(i as int) =~= tris@);
        count % 2 == 1
    }
}

} // verus!
