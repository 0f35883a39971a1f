//! Cross-sections: where a horizontal plane cuts the triangles of a mesh.
use vstd::prelude::*;
use crate::fixed::{
    div_floor, floor_div, in_range, lemma_floor_div_bracket, lemma_floor_div_shift,
    lemma_product_bound, COORD_MAX,
};
use crate::geometry::{lemma_resolved_in_range, Edge, Point, STLMesh, Triangle, Vertex};

verus! {

/// Half the thickness of the band around a plane within which a vertex counts
/// as lying on the plane.
pub const PLANE_TOLERANCE: i64 = 1;

/// Where a height `vz` lies relative to the plane at `z`: 1 above, -1 below,
/// 0 on it, that is within the tolerance of it.
pub open spec fn classify(vz: int, z: int) -> int {
    if vz - z > PLANE_TOLERANCE {
        1
    } else if vz - z < -PLANE_TOLERANCE {
        -1
    } else {
        0
    }
}

/// Whether the edge between `p` and `o` is too nearly level to be cut: its
/// rise is within the tolerance of zero.
pub open spec fn level(p: Vertex, o: Vertex) -> bool {
    -PLANE_TOLERANCE <= o.z - p.z <= PLANE_TOLERANCE
}

/// What one triangle contributes to a cross-section.
#[derive(Clone, Copy, Debug, PartialEq, Eq, Structural)]
pub enum Section {
    /// The triangle lies wholly above or wholly below the plane.
    Clear,
    /// The triangle lies in the plane; it is ignored.
    Coplanar,
    /// An edge that should be cut is level; the triangle is skipped.
    Degenerate,
    /// The plane cuts the triangle along this segment.
    Crossing(Edge),
}

/// The triangle with its corners rotated, in their cyclic order, so that the
/// pivot comes first: the corner whose class differs from that of both others
/// or, where all three classes differ, the corner on the plane.
pub open spec fn pivoted(t: Triangle, z: int) -> Triangle {
    let ca = classify(t.a.z as int, z);
    let cb = classify(t.b.z as int, z);
    let cc = classify(t.c.z as int, z);
    if cb == cc {
        t
    } else if ca == cc {
        Triangle { a: t.b, b: t.c, c: t.a }
    } else if ca == cb {
        Triangle { a: t.c, b: t.a, c: t.b }
    } else if ca == 0 {
        t
    } else if cb == 0 {
        Triangle { a: t.b, b: t.c, c: t.a }
    } else {
        Triangle { a: t.c, b: t.a, c: t.b }
    }
}

/// One coordinate of the point at height `z` on the line through a point at
/// height `pz` with coordinate `p` and a point at height `oz` with coordinate
/// `o`, rounded down.
pub open spec fn crossing_coord(p: int, o: int, pz: int, oz: int, z: int) -> int
    recommends
        oz != pz,
{
    p + floor_div((z - pz) * (o - p), oz - pz)
}

/// The point at height `z` on the line from `p` to `o`, rounded down to the
/// grid.
pub open spec fn crossing(p: Vertex, o: Vertex, z: int) -> Point
    recommends
        o.z != p.z,
{
    Point {
        x: crossing_coord(p.x as int, o.x as int, p.z as int, o.z as int, z) as i64,
        y: crossing_coord(p.y as int, o.y as int, p.z as int, o.z as int, z) as i64,
    }
}

/// What the triangle `t` contributes to the cross-section at height `z`.
///
/// Nothing, if its corners are all of one class. Otherwise the segment between
/// the points where the plane meets the two edges that leave the pivot,
/// directed so that the solid lies to its left, unless one of those edges is
/// level.
pub open spec fn section(t: Triangle, z: int) -> Section {
    let ca = classify(t.a.z as int, z);
    let cb = classify(t.b.z as int, z);
    let cc = classify(t.c.z as int, z);
    if ca == cb && cb == cc {
        if ca == 0 {
            Section::Coplanar
        } else {
            Section::Clear
        }
    } else {
        let r = pivoted(t, z);
        if level(r.a, r.b) || level(r.a, r.c) {
            Section::Degenerate
        } else {
            let towards_b = crossing(r.a, r.b, z);
            let towards_c = crossing(r.a, r.c, z);
            if classify(r.b.z as int, z) > classify(r.a.z as int, z) {
                Section::Crossing(Edge { a: towards_c, b: towards_b })
            } else {
                Section::Crossing(Edge { a: towards_b, b: towards_c })
            }
        }
    }
}

/// The segments that the triangles `tris` contribute at height `z`, in the
/// order of the triangles.
pub open spec fn sections(tris: Seq<Triangle>, z: int) -> Seq<Edge>
    decreases tris.len(),
{
    if tris.len() == 0 {
        Seq::empty()
    } else {
        let before = sections(tris.drop_last(), z);
        match section(tris.last(), z) {
            Section::Crossing(e) => before.push(e),
            _ => before,
        }
    }
}

/// How many of `tris` lie in the plane at height `z`.
pub open spec fn coplanar_count(tris: Seq<Triangle>, z: int) -> nat
    decreases tris.len(),
{
    if tris.len() == 0 {
        0
    } else {
        coplanar_count(tris.drop_last(), z) + if section(tris.last(), z) == Section::Coplanar {
            1nat
        } else {
            0nat
        }
    }
}

/// How many of `tris` are skipped at height `z` for a level edge.
pub open spec fn degenerate_count(tris: Seq<Triangle>, z: int) -> nat
    decreases tris.len(),
{
    if tris.len() == 0 {
        0
    } else {
        degenerate_count(tris.drop_last(), z) + if section(tris.last(), z) == Section::Degenerate {
            1nat
        } else {
            0nat
        }
    }
}

/// The plane meets an edge in the same point from whichever end one starts.
pub proof fn lemma_crossing_symmetric(p: Vertex, o: Vertex, z: int)
    requires
        p.z != o.z,
    ensures
        crossing(p, o, z) == crossing(o, p, z),
{
    lemma_crossing_coord_symmetric(p.x as int, o.x as int, p.z as int, o.z as int, z);
    lemma_crossing_coord_symmetric(p.y as int, o.y as int, p.z as int, o.z as int, z);
}

/// One coordinate of [`lemma_crossing_symmetric`].
pub proof fn lemma_crossing_coord_symmetric(p: int, o: int, pz: int, oz: int, z: int)
    requires
        pz != oz,
    ensures
        crossing_coord(p, o, pz, oz, z) == crossing_coord(o, p, oz, pz, z),
{
    let d = oz - pz;
    let n = (z - pz) * (o - p);
    let m = (z - oz) * (p - o);
    // From the other end the quotient is that of `-m` by `d`, and `n` is `-m`
    // plus a multiple of `d`.
    assert(floor_div(m, -d) == floor_div(-m, d));
    assert(n == -m + (o - p) * d) by (nonlinear_arith)
        requires
            d == oz - pz,
            n == (z - pz) * (o - p),
            m == (z - oz) * (p - o),
    ;
    lemma_floor_div_shift(-m, d, o - p);
}

/// A crossing between two corners of different class, on an edge that is not
/// level, lies within twice the edge's extent of its first corner.
pub proof fn lemma_crossing_reach(p: int, o: int, pz: int, oz: int, z: int)
    requires
        classify(pz, z) != classify(oz, z),
        !(-PLANE_TOLERANCE <= oz - pz <= PLANE_TOLERANCE),
    ensures
        o >= p ==> p - 2 * (o - p) - 1 <= crossing_coord(p, o, pz, oz, z) <= p + 2 * (o - p),
        o < p ==> p - 2 * (p - o) - 1 <= crossing_coord(p, o, pz, oz, z) <= p + 2 * (p - o),
{
    let d = oz - pz;
    let e = if d > 0 { d } else { -d };
    let n = (z - pz) * (o - p);
    let ne = if d > 0 { n } else { -n };
    let m = if o >= p { o - p } else { p - o };
    let q = floor_div(n, d);
    assert(q == ne / e);
    assert(-(2 * e) <= z - pz <= 2 * e);
    lemma_product_bound(z - pz, o - p, 2 * e, m);
    lemma_floor_div_bracket(ne, e);
    assert(q <= 2 * m) by (nonlinear_arith)
        requires
            q * e <= ne,
            ne <= (2 * e) * m,
            e > 0,
            m >= 0,
    ;
    assert(q >= -2 * m - 1) by (nonlinear_arith)
        requires
            ne < (q + 1) * e,
            ne >= -((2 * e) * m),
            e > 0,
            m >= 0,
    ;
}

/// Between a corner above the plane and a corner below it, the crossing lies
/// within the extent of the edge.
pub proof fn lemma_crossing_between(p: int, o: int, pz: int, oz: int, z: int)
    requires
        classify(pz, z) + classify(oz, z) == 0,
        classify(pz, z) != 0,
    ensures
        p <= o ==> p <= crossing_coord(p, o, pz, oz, z) <= o,
        o <= p ==> o <= crossing_coord(p, o, pz, oz, z) <= p,
{
    let d = oz - pz;
    let e = if d > 0 { d } else { -d };
    let n = (z - pz) * (o - p);
    let a = if d > 0 { z - pz } else { pz - z };
    let ne = if d > 0 { n } else { -n };
    let q = floor_div(n, d);
    assert(q == ne / e);
    assert(0 < a < e);
    assert(ne == a * (o - p)) by (nonlinear_arith)
        requires
            n == (z - pz) * (o - p),
            ne == if d > 0 { n } else { -n },
            a == if d > 0 { z - pz } else { pz - z },
    ;
    lemma_floor_div_bracket(ne, e);
    if p <= o {
        assert(0 <= q <= o - p) by (nonlinear_arith)
            requires
                q * e <= ne < (q + 1) * e,
                ne == a * (o - p),
                0 < a < e,
                o - p >= 0,
        ;
    }
    if o <= p {
        assert(o - p <= q <= 0) by (nonlinear_arith)
            requires
                q * e <= ne < (q + 1) * e,
                ne == a * (o - p),
                0 < a < e,
                o - p <= 0,
        ;
    }
}

/// The x component of the normal `(b - a) x (c - a)` of `t`, which points
/// away from the solid.
pub open spec fn normal_x(t: Triangle) -> int {
    (t.b.y - t.a.y) * (t.c.z - t.a.z) - (t.b.z - t.a.z) * (t.c.y - t.a.y)
}

/// The y component of the normal `(b - a) x (c - a)` of `t`.
pub open spec fn normal_y(t: Triangle) -> int {
    (t.b.z - t.a.z) * (t.c.x - t.a.x) - (t.b.x - t.a.x) * (t.c.z - t.a.z)
}

/// The magnitude of `v`.
pub open spec fn magnitude(v: int) -> int {
    if v < 0 {
        -v
    } else {
        v
    }
}

/// How far the normal of `t` leans to the left of the segment `e`: the
/// product of the normal, taken in the plane, with the segment's direction
/// turned a quarter turn against the clock. It is negative when the normal
/// points to the right of the segment, and the solid so lies to its left.
pub open spec fn leftward(t: Triangle, e: Edge) -> int {
    normal_y(t) * (e.b.x - e.a.x) - normal_x(t) * (e.b.y - e.a.y)
}

/// The normal of a triangle does not depend on which corner comes first.
pub proof fn lemma_normal_ignores_rotation(t: Triangle)
    ensures
        normal_x(Triangle { a: t.b, b: t.c, c: t.a }) == normal_x(t),
        normal_y(Triangle { a: t.b, b: t.c, c: t.a }) == normal_y(t),
{
    let (ax, ay, az) = (t.a.x as int, t.a.y as int, t.a.z as int);
    let (bx, by, bz) = (t.b.x as int, t.b.y as int, t.b.z as int);
    let (cx, cy, cz) = (t.c.x as int, t.c.y as int, t.c.z as int);
    assert((cy - by) * (az - bz) - (cz - bz) * (ay - by) == (by - ay) * (cz - az) - (bz - az) * (cy
        - ay)) by (nonlinear_arith);
    assert((cz - bz) * (ax - bx) - (cx - bx) * (az - bz) == (bz - az) * (cx - ax) - (bx - ax) * (cz
        - az)) by (nonlinear_arith);
}

/// A quotient rounded down, scaled by the divisor and a factor of the same
/// sign, brackets the numerator scaled by that factor.
proof fn lemma_floor_scaled(u: int, d: int, e: int)
    requires
        d > 0 && e > 0 || d < 0 && e < 0,
    ensures
        (d * e) * floor_div(u, d) <= u * e < (d * e) * floor_div(u, d) + d * e,
{
    let q = floor_div(u, d);
    if d > 0 {
        lemma_floor_div_bracket(u, d);
        assert((d * e) * q <= u * e < (d * e) * q + d * e) by (nonlinear_arith)
            requires
                q * d <= u < (q + 1) * d,
                e > 0,
        ;
    } else {
        lemma_floor_div_bracket(-u, -d);
        assert((d * e) * q <= u * e < (d * e) * q + d * e) by (nonlinear_arith)
            requires
                q * (-d) <= -u < (q + 1) * (-d),
                e < 0,
        ;
    }
}

/// The step from one rounded crossing to the other, scaled by the product of
/// the two rises, is within that product of the exact step.
proof fn lemma_step_between_crossings(h: int, db: int, dc: int, pb: int, pc: int)
    requires
        db > 0 && dc > 0 || db < 0 && dc < 0,
    ensures
        ({
            let step = floor_div(h * pc, dc) - floor_div(h * pb, db);
            let exact = h * (db * pc - pb * dc);
            exact - db * dc < (db * dc) * step < exact + db * dc
        }),
{
    let qb = floor_div(h * pb, db);
    let qc = floor_div(h * pc, dc);
    let d = db * dc;
    lemma_floor_scaled(h * pb, db, dc);
    lemma_floor_scaled(h * pc, dc, db);
    assert(dc * db == d) by (nonlinear_arith)
        requires
            d == db * dc,
    ;
    assert(d * (qc - qb) == d * qc - d * qb) by (nonlinear_arith);
    assert(h * (db * pc - pb * dc) == (h * pc) * db - (h * pb) * dc) by (nonlinear_arith);
}

/// A product is at most the product of the magnitudes of its factors' bounds.
proof fn lemma_lean_bound(n: int, e: int, d: int)
    requires
        -d < e < d,
    ensures
        -(magnitude(n) * d) <= n * e <= magnitude(n) * d,
{
    assert(-(magnitude(n) * d) <= n * e <= magnitude(n) * d) by (nonlinear_arith)
        requires
            -d < e < d,
            magnitude(n) == if n < 0 { -n } else { n },
    ;
}

/// Up to the rounding of its two ends, a segment has the normal of its
/// triangle on its right, and so the solid on its left: where the pivot lies
/// off the plane, the normal leans to the left of the segment by no more than
/// moving each end by one grid unit can account for.
pub proof fn lemma_solid_on_the_left(t: Triangle, z: int)
    requires
        t.in_range(),
        section(t, z) is Crossing,
        classify(pivoted(t, z).a.z as int, z) != 0,
    ensures
        leftward(t, section(t, z)->Crossing_0) <= magnitude(normal_x(t)) + magnitude(normal_y(t)),
{
    let r = pivoted(t, z);
    lemma_normal_ignores_rotation(t);
    lemma_normal_ignores_rotation(Triangle { a: t.b, b: t.c, c: t.a });
    assert(normal_x(r) == normal_x(t) && normal_y(r) == normal_y(t));
    let (nx, ny) = (normal_x(r), normal_y(r));
    let h = z - r.a.z;
    let db = r.b.z - r.a.z;
    let dc = r.c.z - r.a.z;
    let d = db * dc;
    let (pbx, pby) = (r.b.x - r.a.x, r.b.y - r.a.y);
    let (pcx, pcy) = (r.c.x - r.a.x, r.c.y - r.a.y);
    // The ends as they are rounded, without the casts.
    lemma_crossing_reach(r.a.x as int, r.b.x as int, r.a.z as int, r.b.z as int, z);
    lemma_crossing_reach(r.a.y as int, r.b.y as int, r.a.z as int, r.b.z as int, z);
    lemma_crossing_reach(r.a.x as int, r.c.x as int, r.a.z as int, r.c.z as int, z);
    lemma_crossing_reach(r.a.y as int, r.c.y as int, r.a.z as int, r.c.z as int, z);
    let towards_b = crossing(r.a, r.b, z);
    let towards_c = crossing(r.a, r.c, z);
    let x = towards_c.x - towards_b.x;
    let y = towards_c.y - towards_b.y;
    assert(x == floor_div(h * pcx, dc) - floor_div(h * pbx, db));
    assert(y == floor_div(h * pcy, dc) - floor_div(h * pby, db));
    assert(db > 0 && dc > 0 || db < 0 && dc < 0);
    assert(d > 0) by (nonlinear_arith)
        requires
            d == db * dc,
            db > 0 && dc > 0 || db < 0 && dc < 0,
    ;
    lemma_step_between_crossings(h, db, dc, pbx, pcx);
    lemma_step_between_crossings(h, db, dc, pby, pcy);
    assert(ny == db * pcx - pbx * dc);
    assert(-nx == db * pcy - pby * dc) by (nonlinear_arith)
        requires
            nx == pby * dc - db * pcy,
    ;
    let ex = d * x - h * ny;
    let ey = d * y - h * (-nx);
    assert(-d < ex < d);
    assert(-d < ey < d);
    lemma_lean_bound(ny, ex, d);
    lemma_lean_bound(nx, ey, d);
    let lean = ny * x - nx * y;
    assert(d * lean == h * (nx * nx + ny * ny) + ny * ex - nx * ey) by {
        assert(ny * ex == ny * (d * x) - ny * (h * ny)) by (nonlinear_arith)
            requires
                ex == d * x - h * ny,
        ;
        assert(nx * ey == nx * (d * y) + nx * (h * nx)) by (nonlinear_arith)
            requires
                ey == d * y - h * (-nx),
        ;
        assert(ny * (d * x) == d * (ny * x)) by (nonlinear_arith);
        assert(nx * (d * y) == d * (nx * y)) by (nonlinear_arith);
        assert(ny * (h * ny) == h * (ny * ny)) by (nonlinear_arith);
        assert(nx * (h * nx) == h * (nx * nx)) by (nonlinear_arith);
        assert(d * lean == d * (ny * x) - d * (nx * y)) by (nonlinear_arith)
            requires
                lean == ny * x - nx * y,
        ;
        assert(h * (nx * nx + ny * ny) == h * (nx * nx) + h * (ny * ny)) by (nonlinear_arith);
    }
    assert(nx * nx + ny * ny >= 0) by (nonlinear_arith);
    let slack = magnitude(nx) + magnitude(ny);
    assert(magnitude(ny) * d + magnitude(nx) * d == d * slack) by (nonlinear_arith)
        requires
            slack == magnitude(nx) + magnitude(ny),
    ;
    let e = section(t, z)->Crossing_0;
    if classify(r.b.z as int, z) > classify(r.a.z as int, z) {
        // The pivot lies below: the ends are exchanged.
        assert(h > 0);
        assert(leftward(r, e) == -lean) by (nonlinear_arith)
            requires
                leftward(r, e) == ny * (-x) - nx * (-y),
                lean == ny * x - nx * y,
        ;
        assert(h * (nx * nx + ny * ny) >= 0) by (nonlinear_arith)
            requires
                h > 0,
                nx * nx + ny * ny >= 0,
        ;
        assert(-lean <= slack) by (nonlinear_arith)
            requires
                d > 0,
                d * lean >= -(d * slack),
        ;
    } else {
        assert(h < 0);
        assert(leftward(r, e) == lean);
        assert(h * (nx * nx + ny * ny) <= 0) by (nonlinear_arith)
            requires
                h < 0,
                nx * nx + ny * ny >= 0,
        ;
        assert(lean <= slack) by (nonlinear_arith)
            requires
                d > 0,
                d * lean <= d * slack,
        ;
    }
}

/// Every triangle gives at most one segment, and none if it lies in the plane
/// or is skipped.
pub proof fn lemma_sections_count(tris: Seq<Triangle>, z: int)
    ensures
        sections(tris, z).len() + coplanar_count(tris, z) + degenerate_count(tris, z)
            <= tris.len(),
    decreases tris.len(),
{
    if tris.len() > 0 {
        lemma_sections_count(tris.drop_last(), z);
    }
}

/// Where the height `vz` lies relative to the plane at `z`.
fn class_of(vz: i64, z: i64) -> (c: i8)
    ensures
        c == classify(vz as int, z as int),
{
    let d: i128 = vz as i128 - z as i128;
    if d > PLANE_TOLERANCE as i128 {
        1
    } else if d < -(PLANE_TOLERANCE as i128) {
        -1
    } else {
        0
    }
}

/// Whether the edge between `p` and `o` is level.
fn is_level(p: &Vertex, o: &Vertex) -> (r: bool)
    ensures
        r == level(*p, *o),
{
    let d: i128 = o.z as i128 - p.z as i128;
    -(PLANE_TOLERANCE as i128) <= d && d <= PLANE_TOLERANCE as i128
}

/// One coordinate of the point where the plane at `z` meets an edge.
fn cut_coord(p: i64, o: i64, pz: i64, oz: i64, z: i64) -> (c: i64)
    requires
        in_range(p as int),
        in_range(o as int),
        in_range(pz as int),
        in_range(oz as int),
        classify(pz as int, z as int) != classify(oz as int, z as int),
        !(-PLANE_TOLERANCE <= oz - pz <= PLANE_TOLERANCE),
    ensures
        c == crossing_coord(p as int, o as int, pz as int, oz as int, z as int),
{
    let dz: i128 = z as i128 - pz as i128;
    let dc: i128 = o as i128 - p as i128;
    let d: i128 = oz as i128 - pz as i128;
    proof {
        lemma_product_bound(
            dz as int,
            dc as int,
            0x1_0000_0000_0000_0000,
            2 * COORD_MAX as int,
        );
        lemma_crossing_reach(p as int, o as int, pz as int, oz as int, z as int);
    }
    let q: i128 = div_floor(dz * dc, d);
    (p as i128 + q) as i64
}

/// The point where the plane at `z` meets the edge from `p` to `o`.
fn cut(p: &Vertex, o: &Vertex, z: i64) -> (r: Point)
    requires
        p.in_range(),
        o.in_range(),
        classify(p.z as int, z as int) != classify(o.z as int, z as int),
        !level(*p, *o),
    ensures
        r == crossing(*p, *o, z as int),
{
    Point { x: cut_coord(p.x, o.x, p.z, o.z, z), y: cut_coord(p.y, o.y, p.z, o.z, z) }
}

/// What the triangle `t` contributes to the cross-section at height `z`.
pub fn triangle_section(t: &Triangle, z: i64) -> (r: Section)
    requires
        t.in_range(),
    ensures
        r == section(*t, z as int),
{
    let ca = class_of(t.a.z, z);
    let cb = class_of(t.b.z, z);
    let cc = class_of(t.c.z, z);
    if ca == cb && cb == cc {
        if ca == 0 {
            return Section::Coplanar;
        }
        return Section::Clear;
    }
    let r = if cb == cc {
        *t
    } else if ca == cc {
        Triangle { a: t.b, b: t.c, c: t.a }
    } else if ca == cb {
        Triangle { a: t.c, b: t.a, c: t.b }
    } else if ca == 0 {
        *t
    } else if cb == 0 {
        Triangle { a: t.b, b: t.c, c: t.a }
    } else {
        Triangle { a: t.c, b: t.a, c: t.b }
    };
    assert(r == pivoted(*t, z as int));
    if is_level(&r.a, &r.b) || is_level(&r.a, &r.c) {
        return Section::Degenerate;
    }
    let towards_b = cut(&r.a, &r.b, z);
    let towards_c = cut(&r.a, &r.c, z);
    if class_of(r.b.z, z) > class_of(r.a.z, z) {
        Section::Crossing(Edge { a: towards_c, b: towards_b })
    } else {
        Section::Crossing(Edge { a: towards_b, b: towards_c })
    }
}

/// The cross-section of a mesh at one height.
#[derive(Clone, Debug)]
pub struct CrossSection {
    /// The segments where the plane cuts the surface, in the order of the
    /// triangles that give them.
    pub segments: Vec<Edge>,
    /// How many triangles lie in the plane and were ignored.
    pub ignored_faces: usize,
    /// How many triangles were skipped for a level edge.
    pub degenerate_triangles: usize,
}

/// Cuts the mesh with the plane at height `z`.
pub fn cross_section(stl: &STLMesh, z: i64) -> (r: CrossSection)
    requires
        stl.wf(),
    ensures
        r.segments@ == sections(stl.triangle_seq(), z as int),
        r.ignored_faces == coplanar_count(stl.triangle_seq(), z as int),
        r.degenerate_triangles == degenerate_count(stl.triangle_seq(), z as int),
{
    let tris = stl.triangles();
    let mut segments: Vec<Edge> = Vec::new();
    let mut ignored_faces: usize = 0;
    let mut degenerate_triangles: usize = 0;
    let mut i: usize = 0;
    while i < tris.len()
        invariant
            stl.wf(),
            tris@ == stl.triangle_seq(),
            i <= tris.len(),
            segments@ == sections(tris@.take(i as int), z as int),
            ignored_faces == coplanar_count(tris@.take(i as int), z as int),
            degenerate_triangles == degenerate_count(tris@.take(i as int), z as int),
            ignored_faces <= i,
            degenerate_triangles <= i,
        decreases tris.len() - i,
    {
        proof {
            lemma_resolved_in_range(stl, i as int);
            assert(tris@.take(i + 1).drop_last() =~= tris@.take(i as int));
        }
        match triangle_section(&tris[i], z) {
            Section::Crossing(e) => {
                segments.push(e);
            },
            Section::Coplanar => {
                ignored_faces = ignored_faces + 1;
            },
            Section::Degenerate => {
                degenerate_triangles = degenerate_triangles + 1;
            },
            Section::Clear => {},
        }
        i += 1;
    }
    assert(tris@.take(i as int) =~= tris@);
    CrossSection { segments, ignored_faces, degenerate_triangles }
}

} // verus!
