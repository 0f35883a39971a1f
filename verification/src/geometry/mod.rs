//! Triangle meshes: vertices, faces that index them, and the transforms that
//! position a mesh before it is sliced.
use vstd::prelude::*;
use crate::fixed::{in_range, floor_div, div_floor, lemma_product_bound, COORD_MAX, ONE};

pub mod ray;

verus! {

/// A point in space, in fixed-point coordinates.
#[derive(Clone, Copy, Debug, PartialEq, Eq, Structural)]
pub struct Vertex {
    pub x: i64,
    pub y: i64,
    pub z: i64,
}

impl Vertex {
    /// Whether all three coordinates lie within the coordinate range.
    pub open spec fn in_range(self) -> bool {
        in_range(self.x as int) && in_range(self.y as int) && in_range(self.z as int)
    }
}

/// A face of a mesh: three indices into the mesh's vertex array.
#[derive(Clone, Copy, Debug, PartialEq, Eq, Structural)]
pub struct Face {
    pub a: usize,
    pub b: usize,
    pub c: usize,
}

impl Face {
    /// Whether the three indices address a vertex array of length `n`.
    pub open spec fn within(self, n: int) -> bool {
        self.a < n && self.b < n && self.c < n
    }
}

/// A face with its three corners resolved to positions.
#[derive(Clone, Copy, Debug, PartialEq, Eq, Structural)]
pub struct Triangle {
    pub a: Vertex,
    pub b: Vertex,
    pub c: Vertex,
}

impl Triangle {
    /// Whether all three corners lie within the coordinate range.
    pub open spec fn in_range(self) -> bool {
        self.a.in_range() && self.b.in_range() && self.c.in_range()
    }
}

/// A point of a horizontal plane.
#[derive(Clone, Copy, Debug, PartialEq, Eq, Structural)]
pub struct Point {
    pub x: i64,
    pub y: i64,
}

/// A directed line segment of a horizontal plane, from `a` to `b`.
#[derive(Clone, Copy, Debug, PartialEq, Eq, Structural)]
pub struct Edge {
    pub a: Point,
    pub b: Point,
}

/// The segments of one cross-section.
pub type Edges = Vec<Edge>;

/// The smallest axis-aligned box that holds a set of vertices.
#[derive(Clone, Copy, Debug, PartialEq, Eq, Structural)]
pub struct BoundingBox {
    pub x_min: i64,
    pub y_min: i64,
    pub z_min: i64,
    pub x_max: i64,
    pub y_max: i64,
    pub z_max: i64,
}

/// Why a mesh could not be built, measured or moved.
#[derive(Clone, Copy, Debug, PartialEq, Eq, Structural)]
pub enum MeshError {
    /// A face names a vertex that does not exist.
    ParseError,
    /// The mesh has no vertices, so it has no extent.
    EmptyMesh,
    /// A coordinate lies, or would come to lie, beyond the coordinate range.
    OutOfRange,
}

/// The x coordinates of `vs`, in order.
pub open spec fn xs(vs: Seq<Vertex>) -> Seq<int> {
    Seq::new(vs.len(), |i: int| vs[i].x as int)
}

/// The y coordinates of `vs`, in order.
pub open spec fn ys(vs: Seq<Vertex>) -> Seq<int> {
    Seq::new(vs.len(), |i: int| vs[i].y as int)
}

/// The z coordinates of `vs`, in order.
pub open spec fn zs(vs: Seq<Vertex>) -> Seq<int> {
    Seq::new(vs.len(), |i: int| vs[i].z as int)
}

impl BoundingBox {
    /// Whether this box is the bounding box of the non-empty `vs`: each bound
    /// is the least or greatest coordinate on its axis.
    pub open spec fn bounds(self, vs: Seq<Vertex>) -> bool {
        &&& self.x_min == xs(vs).min()
        &&& self.y_min == ys(vs).min()
        &&& self.z_min == zs(vs).min()
        &&& self.x_max == xs(vs).max()
        &&& self.y_max == ys(vs).max()
        &&& self.z_max == zs(vs).max()
    }
}

/// The triangle that `face` denotes among `vertices`.
pub open spec fn resolve(face: Face, vertices: Seq<Vertex>) -> Triangle
    recommends
        face.within(vertices.len() as int),
{
    Triangle {
        a: vertices[face.a as int],
        b: vertices[face.b as int],
        c: vertices[face.c as int],
    }
}

/// The triangles that `faces` denote among `vertices`, in the order of the faces.
pub open spec fn resolve_all(faces: Seq<Face>, vertices: Seq<Vertex>) -> Seq<Triangle> {
    Seq::new(faces.len(), |i: int| resolve(faces[i], vertices))
}

/// Whether every face addresses a vertex array of length `n`.
pub open spec fn faces_within(faces: Seq<Face>, n: int) -> bool {
    forall|i: int| 0 <= i < faces.len() ==> (#[trigger] faces[i]).within(n)
}

/// Whether every vertex lies within the coordinate range.
pub open spec fn all_in_range(vs: Seq<Vertex>) -> bool {
    forall|i: int| 0 <= i < vs.len() ==> (#[trigger] vs[i]).in_range()
}

/// Whether `after` is `before` moved by `(dx, dy, dz)`.
pub open spec fn is_translation(
    after: Seq<Vertex>,
    before: Seq<Vertex>,
    dx: int,
    dy: int,
    dz: int,
) -> bool {
    &&& after.len() == before.len()
    &&& forall|i: int|
        0 <= i < before.len() ==> {
            &&& (#[trigger] after[i]).x == before[i].x + dx
            &&& after[i].y == before[i].y + dy
            &&& after[i].z == before[i].z + dz
        }
}

/// Whether moving `vs` by `(dx, dy, dz)` keeps every vertex within the
/// coordinate range.
pub open spec fn translation_fits(vs: Seq<Vertex>, dx: int, dy: int, dz: int) -> bool {
    forall|i: int|
        0 <= i < vs.len() ==> {
            &&& in_range((#[trigger] vs[i]).x + dx)
            &&& in_range(vs[i].y + dy)
            &&& in_range(vs[i].z + dz)
        }
}

/// A coordinate multiplied by a fixed-point factor, rounded down.
pub open spec fn scale_coord(c: int, factor: int) -> int {
    floor_div(c * factor, ONE as int)
}

/// Whether `after` is `before` with each axis multiplied by its fixed-point
/// factor.
pub open spec fn is_scaling(
    after: Seq<Vertex>,
    before: Seq<Vertex>,
    sx: int,
    sy: int,
    sz: int,
) -> bool {
    &&& after.len() == before.len()
    &&& forall|i: int|
        0 <= i < before.len() ==> {
            &&& (#[trigger] after[i]).x == scale_coord(before[i].x as int, sx)
            &&& after[i].y == scale_coord(before[i].y as int, sy)
            &&& after[i].z == scale_coord(before[i].z as int, sz)
        }
}

/// Whether scaling `vs` by `(sx, sy, sz)` keeps every vertex within the
/// coordinate range.
pub open spec fn scaling_fits(vs: Seq<Vertex>, sx: int, sy: int, sz: int) -> bool {
    forall|i: int|
        0 <= i < vs.len() ==> {
            &&& in_range(scale_coord((#[trigger] vs[i]).x as int, sx))
            &&& in_range(scale_coord(vs[i].y as int, sy))
            &&& in_range(scale_coord(vs[i].z as int, sz))
        }
}

/// A triangle mesh: vertices, faces that index them, and the faces' resolved
/// triangles, kept equal to what the faces denote.
#[derive(Clone, Debug)]
pub struct STLMesh {
    faces: Vec<Face>,
    file_name: String,
    triangles: Vec<Triangle>,
    vertices: Vec<Vertex>,
}

impl STLMesh {
    /// The vertices, in order.
    pub closed spec fn vertex_seq(&self) -> Seq<Vertex> {
        self.vertices@
    }

    /// The faces, in order.
    pub closed spec fn face_seq(&self) -> Seq<Face> {
        self.faces@
    }

    /// The resolved triangles, one per face.
    pub closed spec fn triangle_seq(&self) -> Seq<Triangle> {
        self.triangles@
    }

    /// The name the mesh was loaded under.
    pub closed spec fn name(&self) -> Seq<char> {
        self.file_name@
    }

    /// The mesh invariant: every vertex is within the coordinate range, every
    /// face addresses existing vertices, and the resolved triangles are exactly
    /// what the faces denote.
    pub open spec fn wf(&self) -> bool {
        &&& all_in_range(self.vertex_seq())
        &&& faces_within(self.face_seq(), self.vertex_seq().len() as int)
        &&& self.triangle_seq() == resolve_all(self.face_seq(), self.vertex_seq())
    }

    /// Builds a mesh from the vertex and face arrays of a parsed file.
    ///
    /// Fails with `ParseError` when a face names a missing vertex, and
    /// otherwise with `OutOfRange` when a vertex lies beyond the coordinate
    /// range.
    pub fn new(file_name: String, vertices: Vec<Vertex>, faces: Vec<Face>) -> (r: Result<
        STLMesh,
        MeshError,
    >)
        ensures
            match r {
                Ok(m) => {
                    &&& m.wf()
                    &&& m.vertex_seq() == vertices@
                    &&& m.face_seq() == faces@
                    &&& m.name() == file_name@
                },
                Err(e) => e == if !faces_within(faces@, vertices@.len() as int) {
                    MeshError::ParseError
                } else {
                    MeshError::OutOfRange
                },
            },
            r is Ok <==> faces_within(faces@, vertices@.len() as int) && all_in_range(vertices@),
    {
        let n = vertices.len();
        let mut i: usize = 0;
        while i < faces.len()
            invariant
                n == vertices.len(),
                i <= faces.len(),
                forall|k: int| 0 <= k < i ==> (#[trigger] faces@[k]).within(n as int),
            decreases faces.len() - i,
        {
            let f = faces[i];
            if f.a >= n || f.b >= n || f.c >= n {
                assert(!faces@[i as int].within(n as int));
                return Err(MeshError::ParseError);
            }
            i += 1;
        }
        let mut j: usize = 0;
        while j < n
            invariant
                n == vertices.len(),
                j <= n,
                faces_within(faces@, n as int),
                forall|k: int| 0 <= k < j ==> (#[trigger] vertices@[k]).in_range(),
            decreases n - j,
        {
            if !vertex_in_range(&vertices[j]) {
                assert(!vertices@[j as int].in_range());
                return Err(MeshError::OutOfRange);
            }
            j += 1;
        }
        let triangles = STLMesh::_triangles(&faces, &vertices);
        Ok(STLMesh { faces, file_name, triangles, vertices })
    }

    /// Resolves each face to the positions of its three corners.
    pub fn _triangles(faces: &Vec<Face>, vertices: &Vec<Vertex>) -> (tris: Vec<Triangle>)
        requires
            faces_within(faces@, vertices@.len() as int),
        ensures
            tris@ == resolve_all(faces@, vertices@),
    {
        let mut tris: Vec<Triangle> = Vec::new();
        let mut i: usize = 0;
        while i < faces.len()
            invariant
                i <= faces.len(),
                faces_within(faces@, vertices@.len() as int),
                tris@.len() == i,
                forall|k: int| 0 <= k < i ==> #[trigger] tris@[k] == resolve(faces@[k], vertices@),
            decreases faces.len() - i,
        {
            let f = faces[i];
            assert(faces@[i as int].within(vertices@.len() as int));
            tris.push(Triangle { a: vertices[f.a], b: vertices[f.b], c: vertices[f.c] });
            i += 1;
        }
        assert(tris@ =~= resolve_all(faces@, vertices@));
        tris
    }

    /// The faces, as indices into the vertices.
    pub fn faces(&self) -> (r: &Vec<Face>)
        ensures
            r@ == self.face_seq(),
    {
        &self.faces
    }

    /// The name the mesh was loaded under.
    pub fn file_name(&self) -> (r: &String)
        ensures
            r@ == self.name(),
    {
        &self.file_name
    }

    /// The resolved triangles, one per face.
    pub fn triangles(&self) -> (r: &Vec<Triangle>)
        ensures
            r@ == self.triangle_seq(),
    {
        &self.triangles
    }

    /// The vertices.
    pub fn vertices(&self) -> (r: &Vec<Vertex>)
        ensures
            r@ == self.vertex_seq(),
    {
        &self.vertices
    }
}

impl STLMesh {
    /// The least and greatest coordinate on each axis, over all vertices.
    ///
    /// Fails with `EmptyMesh` when there is no vertex to measure.
    pub fn bounding_box(&self) -> (r: Result<BoundingBox, MeshError>)
        ensures
            match r {
                Ok(bb) => self.vertex_seq().len() > 0 && bb.bounds(self.vertex_seq()),
                Err(e) => e == MeshError::EmptyMesh && self.vertex_seq().len() == 0,
            },
    {
        let n = self.vertices.len();
        if n == 0 {
            return Err(MeshError::EmptyMesh);
        }
        let first = self.vertices[0];
        let mut bb = BoundingBox {
            x_min: first.x,
            y_min: first.y,
            z_min: first.z,
            x_max: first.x,
            y_max: first.y,
            z_max: first.z,
        };
        let ghost vs = self.vertices@;
        proof {
            assert(xs(vs)[0] == first.x && ys(vs)[0] == first.y && zs(vs)[0] == first.z);
        }
        let mut i: usize = 1;
        while i < n
            invariant
                vs == self.vertices@,
                n == vs.len(),
                1 <= i <= n,
                is_extreme(xs(vs), i as int, bb.x_min as int, true),
                is_extreme(ys(vs), i as int, bb.y_min as int, true),
                is_extreme(zs(vs), i as int, bb.z_min as int, true),
                is_extreme(xs(vs), i as int, bb.x_max as int, false),
                is_extreme(ys(vs), i as int, bb.y_max as int, false),
                is_extreme(zs(vs), i as int, bb.z_max as int, false),
            decreases n - i,
        {
            let v = self.vertices[i];
            proof {
                assert(xs(vs)[i as int] == v.x && ys(vs)[i as int] == v.y && zs(vs)[i as int]
                    == v.z);
                lemma_extreme_step(xs(vs), i as int, bb.x_min as int, true);
                lemma_extreme_step(ys(vs), i as int, bb.y_min as int, true);
                lemma_extreme_step(zs(vs), i as int, bb.z_min as int, true);
                lemma_extreme_step(xs(vs), i as int, bb.x_max as int, false);
                lemma_extreme_step(ys(vs), i as int, bb.y_max as int, false);
                lemma_extreme_step(zs(vs), i as int, bb.z_max as int, false);
            }
            if v.x < bb.x_min {
                bb.x_min = v.x;
            }
            if v.y < bb.y_min {
                bb.y_min = v.y;
            }
            if v.z < bb.z_min {
                bb.z_min = v.z;
            }
            if v.x > bb.x_max {
                bb.x_max = v.x;
            }
            if v.y > bb.y_max {
                bb.y_max = v.y;
            }
            if v.z > bb.z_max {
                bb.z_max = v.z;
            }
            i += 1;
        }
        proof {
            lemma_extreme_is_min_max(xs(vs), bb.x_min as int, true);
            lemma_extreme_is_min_max(ys(vs), bb.y_min as int, true);
            lemma_extreme_is_min_max(zs(vs), bb.z_min as int, true);
            lemma_extreme_is_min_max(xs(vs), bb.x_max as int, false);
            lemma_extreme_is_min_max(ys(vs), bb.y_max as int, false);
            lemma_extreme_is_min_max(zs(vs), bb.z_max as int, false);
        }
        Ok(bb)
    }

    /// Moves every vertex by `(x, y, z)` and re-derives the triangles.
    ///
    /// Fails with `OutOfRange`, leaving the mesh as it was, when some vertex
    /// would leave the coordinate range.
    pub fn translate(&mut self, x: i64, y: i64, z: i64) -> (r: Result<(), MeshError>)
        requires
            old(self).wf(),
        ensures
            final(self).wf(),
            final(self).face_seq() == old(self).face_seq(),
            final(self).name() == old(self).name(),
            match r {
                Ok(_) => is_translation(
                    final(self).vertex_seq(),
                    old(self).vertex_seq(),
                    x as int,
                    y as int,
                    z as int,
                ),
                Err(e) => e == MeshError::OutOfRange && final(self).vertex_seq() == old(
                    self,
                ).vertex_seq(),
            },
            r is Ok <==> translation_fits(old(self).vertex_seq(), x as int, y as int, z as int),
    {
        let n = self.vertices.len();
        let mut moved: Vec<Vertex> = Vec::new();
        let mut i: usize = 0;
        while i < n
            invariant
                *self == *old(self),
                self.wf(),
                n == self.vertices@.len(),
                i <= n,
                moved@.len() == i,
                all_in_range(self.vertices@),
                all_in_range(moved@),
                forall|k: int|
                    0 <= k < i ==> {
                        &&& (#[trigger] moved@[k]).x == self.vertices@[k].x + x
                        &&& moved@[k].y == self.vertices@[k].y + y
                        &&& moved@[k].z == self.vertices@[k].z + z
                    },
            decreases n - i,
        {
            let v = self.vertices[i];
            assert(self.vertices@[i as int].in_range());
            let nx: i128 = v.x as i128 + x as i128;
            let ny: i128 = v.y as i128 + y as i128;
            let nz: i128 = v.z as i128 + z as i128;
            if !(coord_fits(nx) && coord_fits(ny) && coord_fits(nz)) {
                return Err(MeshError::OutOfRange);
            }
            moved.push(Vertex { x: nx as i64, y: ny as i64, z: nz as i64 });
            i += 1;
        }
        proof {
            assert forall|k: int| 0 <= k < n implies {
                &&& in_range((#[trigger] self.vertices@[k]).x + x)
                &&& in_range(self.vertices@[k].y + y)
                &&& in_range(self.vertices@[k].z + z)
            } by {
                assert(moved@[k].in_range());
            }
        }
        self.vertices = moved;
        self.triangles = STLMesh::_triangles(&self.faces, &self.vertices);
        Ok(())
    }

    /// Multiplies each axis by its fixed-point factor, rounding down, and
    /// re-derives the triangles.
    ///
    /// Fails with `OutOfRange`, leaving the mesh as it was, when some vertex
    /// would leave the coordinate range.
    pub fn scale(&mut self, x: i64, y: i64, z: i64) -> (r: Result<(), MeshError>)
        requires
            old(self).wf(),
        ensures
            final(self).wf(),
            final(self).face_seq() == old(self).face_seq(),
            final(self).name() == old(self).name(),
            match r {
                Ok(_) => is_scaling(
                    final(self).vertex_seq(),
                    old(self).vertex_seq(),
                    x as int,
                    y as int,
                    z as int,
                ),
                Err(e) => e == MeshError::OutOfRange && final(self).vertex_seq() == old(
                    self,
                ).vertex_seq(),
            },
            r is Ok <==> scaling_fits(old(self).vertex_seq(), x as int, y as int, z as int),
    {
        let n = self.vertices.len();
        let mut scaled: Vec<Vertex> = Vec::new();
        let mut i: usize = 0;
        while i < n
            invariant
                *self == *old(self),
                self.wf(),
                n == self.vertices@.len(),
                i <= n,
                scaled@.len() == i,
                all_in_range(self.vertices@),
                all_in_range(scaled@),
                forall|k: int|
                    0 <= k < i ==> {
                        &&& (#[trigger] scaled@[k]).x == scale_coord(
                            self.vertices@[k].x as int,
                            x as int,
                        )
                        &&& scaled@[k].y == scale_coord(self.vertices@[k].y as int, y as int)
                        &&& scaled@[k].z == scale_coord(self.vertices@[k].z as int, z as int)
                    },
            decreases n - i,
        {
            let v = self.vertices[i];
            assert(self.vertices@[i as int].in_range());
            let nx: i128 = scaled_coord(v.x, x);
            let ny: i128 = scaled_coord(v.y, y);
            let nz: i128 = scaled_coord(v.z, z);
            if !(coord_fits(nx) && coord_fits(ny) && coord_fits(nz)) {
                return Err(MeshError::OutOfRange);
            }
            scaled.push(Vertex { x: nx as i64, y: ny as i64, z: nz as i64 });
            i += 1;
        }
        proof {
            assert forall|k: int| 0 <= k < n implies {
                &&& in_range(scale_coord((#[trigger] self.vertices@[k]).x as int, x as int))
                &&& in_range(scale_coord(self.vertices@[k].y as int, y as int))
                &&& in_range(scale_coord(self.vertices@[k].z as int, z as int))
            } by {
                assert(scaled@[k].in_range());
            }
        }
        self.vertices = scaled;
        self.triangles = STLMesh::_triangles(&self.faces, &self.vertices);
        Ok(())
    }

    /// Moves the mesh along z so that its lowest vertex lies at height zero.
    ///
    /// Fails with `EmptyMesh` when there is no vertex, and with `OutOfRange`
    /// when the move would take a vertex beyond the coordinate range; the mesh
    /// is then left as it was.
    pub fn home_z(&mut self) -> (r: Result<(), MeshError>)
        requires
            old(self).wf(),
        ensures
            final(self).wf(),
            final(self).face_seq() == old(self).face_seq(),
            final(self).name() == old(self).name(),
            match r {
                Ok(_) => {
                    &&& old(self).vertex_seq().len() > 0
                    &&& is_translation(
                        final(self).vertex_seq(),
                        old(self).vertex_seq(),
                        0,
                        0,
                        -zs(old(self).vertex_seq()).min(),
                    )
                    &&& zs(final(self).vertex_seq()).min() == 0
                },
                Err(e) => {
                    &&& final(self).vertex_seq() == old(self).vertex_seq()
                    &&& e == if old(self).vertex_seq().len() == 0 {
                        MeshError::EmptyMesh
                    } else {
                        MeshError::OutOfRange
                    }
                },
            },
            r is Ok <==> old(self).vertex_seq().len() > 0 && translation_fits(
                old(self).vertex_seq(),
                0,
                0,
                -zs(old(self).vertex_seq()).min(),
            ),
    {
        let bb = match self.bounding_box() {
            Ok(bb) => bb,
            Err(_) => {
                return Err(MeshError::EmptyMesh);
            },
        };
        proof {
            lemma_min_max_in_range(self.vertex_seq());
        }
        let r = self.translate(0, 0, -bb.z_min);
        proof {
            if r is Ok {
                lemma_home_z_floor(old(self).vertex_seq(), self.vertex_seq());
            }
        }
        r
    }
}

/// Every triangle resolved from vertices within range is within range.
pub proof fn lemma_resolved_in_range(m: &STLMesh, i: int)
    requires
        m.wf(),
        0 <= i < m.triangle_seq().len(),
    ensures
        m.triangle_seq()[i].in_range(),
{
    let f = m.face_seq()[i];
    assert(f.within(m.vertex_seq().len() as int));
    assert(m.vertex_seq()[f.a as int].in_range());
    assert(m.vertex_seq()[f.b as int].in_range());
    assert(m.vertex_seq()[f.c as int].in_range());
}

/// Whether `m` is the least (`least`) or greatest value among the first `n`
/// entries of `s`.
pub open spec fn is_extreme(s: Seq<int>, n: int, m: int, least: bool) -> bool {
    &&& forall|k: int| 0 <= k < n ==> if least { m <= #[trigger] s[k] } else { m >= s[k] }
    &&& exists|k: int| 0 <= k < n && #[trigger] s[k] == m
}

/// Taking one more entry into account keeps the extreme or replaces it by
/// that entry.
proof fn lemma_extreme_step(s: Seq<int>, n: int, m: int, least: bool)
    requires
        0 < n < s.len(),
        is_extreme(s, n, m, least),
    ensures
        is_extreme(
            s,
            n + 1,
            if least {
                if s[n] < m {
                    s[n]
                } else {
                    m
                }
            } else {
                if s[n] > m {
                    s[n]
                } else {
                    m
                }
            },
            least,
        ),
{
    let k = choose|k: int| 0 <= k < n && #[trigger] s[k] == m;
    assert(s[k] == m);
    assert(s[n] == s[n]);
}

/// A bound that is attained is the minimum, or the maximum.
pub proof fn lemma_extreme_is_min_max(s: Seq<int>, m: int, least: bool)
    requires
        s.len() > 0,
        is_extreme(s, s.len() as int, m, least),
    ensures
        least ==> s.min() == m,
        !least ==> s.max() == m,
{
    s.min_ensures();
    s.max_ensures();
    let k = choose|k: int| 0 <= k < s.len() && #[trigger] s[k] == m;
    if least {
        let j = choose|j: int| 0 <= j < s.len() && s[j] == s.min();
        assert(m <= s[j]);
        assert(s.min() <= s[k]);
    } else {
        let j = choose|j: int| 0 <= j < s.len() && s[j] == s.max();
        assert(m >= s[j]);
        assert(s.max() >= s[k]);
    }
}

/// The minimum and maximum of a non-empty sequence bound it and are attained.
pub proof fn lemma_min_max_are_extreme(s: Seq<int>)
    requires
        s.len() > 0,
    ensures
        is_extreme(s, s.len() as int, s.min(), true),
        is_extreme(s, s.len() as int, s.max(), false),
{
    s.min_ensures();
    s.max_ensures();
    let j = choose|j: int| 0 <= j < s.len() && s[j] == s.min();
    assert(s[j] == s.min());
    let k = choose|k: int| 0 <= k < s.len() && s[k] == s.max();
    assert(s[k] == s.max());
}

/// The extent of vertices within the coordinate range is within that range.
pub proof fn lemma_min_max_in_range(vs: Seq<Vertex>)
    requires
        vs.len() > 0,
        all_in_range(vs),
    ensures
        in_range(xs(vs).min()),
        in_range(ys(vs).min()),
        in_range(zs(vs).min()),
        in_range(xs(vs).max()),
        in_range(ys(vs).max()),
        in_range(zs(vs).max()),
{
    lemma_coords_in_range(vs);
    lemma_min_max_are_extreme(xs(vs));
    lemma_min_max_are_extreme(ys(vs));
    lemma_min_max_are_extreme(zs(vs));
}

proof fn lemma_coords_in_range(vs: Seq<Vertex>)
    requires
        all_in_range(vs),
    ensures
        forall|k: int| 0 <= k < vs.len() ==> in_range(#[trigger] xs(vs)[k]),
        forall|k: int| 0 <= k < vs.len() ==> in_range(#[trigger] ys(vs)[k]),
        forall|k: int| 0 <= k < vs.len() ==> in_range(#[trigger] zs(vs)[k]),
{
    assert forall|k: int| 0 <= k < vs.len() implies in_range(#[trigger] xs(vs)[k]) && in_range(
        ys(vs)[k],
    ) && in_range(zs(vs)[k]) by {
        assert(vs[k].in_range());
    }
}

/// Adding `d` to every entry adds `d` to the minimum and to the maximum.
pub proof fn lemma_shifted_min_max(a: Seq<int>, b: Seq<int>, d: int)
    requires
        a.len() > 0,
        b.len() == a.len(),
        forall|k: int| 0 <= k < a.len() ==> #[trigger] b[k] == a[k] + d,
    ensures
        b.min() == a.min() + d,
        b.max() == a.max() + d,
{
    lemma_min_max_are_extreme(a);
    let lo = choose|k: int| 0 <= k < a.len() && #[trigger] a[k] == a.min();
    let hi = choose|k: int| 0 <= k < a.len() && #[trigger] a[k] == a.max();
    assert(b[lo] == a.min() + d);
    assert(b[hi] == a.max() + d);
    assert forall|k: int| 0 <= k < b.len() implies a.min() + d <= #[trigger] b[k] by {
        assert(a.min() <= a[k]);
    }
    assert forall|k: int| 0 <= k < b.len() implies a.max() + d >= #[trigger] b[k] by {
        assert(a.max() >= a[k]);
    }
    lemma_extreme_is_min_max(b, a.min() + d, true);
    lemma_extreme_is_min_max(b, a.max() + d, false);
}

/// Translating and then measuring gives the same box as measuring and then
/// translating the box: each bound moves by the translation on its axis.
pub proof fn lemma_translation_moves_bounds(
    after: Seq<Vertex>,
    before: Seq<Vertex>,
    dx: int,
    dy: int,
    dz: int,
)
    requires
        before.len() > 0,
        is_translation(after, before, dx, dy, dz),
    ensures
        xs(after).min() == xs(before).min() + dx,
        ys(after).min() == ys(before).min() + dy,
        zs(after).min() == zs(before).min() + dz,
        xs(after).max() == xs(before).max() + dx,
        ys(after).max() == ys(before).max() + dy,
        zs(after).max() == zs(before).max() + dz,
{
    assert forall|k: int| 0 <= k < before.len() implies #[trigger] xs(after)[k] == xs(before)[k]
        + dx && #[trigger] ys(after)[k] == ys(before)[k] + dy && #[trigger] zs(after)[k] == zs(
        before,
    )[k] + dz by {
        assert(after[k].x == before[k].x + dx);
    }
    lemma_shifted_min_max(xs(before), xs(after), dx);
    lemma_shifted_min_max(ys(before), ys(after), dy);
    lemma_shifted_min_max(zs(before), zs(after), dz);
}

/// Scaling keeps the order of coordinates for a factor that is not negative,
/// and reverses it for one that is not positive.
pub proof fn lemma_scale_coord_monotone(c: int, d: int, factor: int)
    requires
        c <= d,
    ensures
        factor >= 0 ==> scale_coord(c, factor) <= scale_coord(d, factor),
        factor <= 0 ==> scale_coord(c, factor) >= scale_coord(d, factor),
{
    if factor >= 0 {
        assert(c * factor <= d * factor) by (nonlinear_arith)
            requires
                c <= d,
                factor >= 0,
        ;
    }
    if factor <= 0 {
        assert(c * factor >= d * factor) by (nonlinear_arith)
            requires
                c <= d,
                factor <= 0,
        ;
    }
}

/// Scaling every entry scales the minimum and the maximum, and swaps them
/// where the factor is negative.
pub proof fn lemma_scaled_min_max(a: Seq<int>, b: Seq<int>, factor: int)
    requires
        a.len() > 0,
        b.len() == a.len(),
        forall|k: int| 0 <= k < a.len() ==> #[trigger] b[k] == scale_coord(a[k], factor),
    ensures
        factor >= 0 ==> b.min() == scale_coord(a.min(), factor) && b.max() == scale_coord(
            a.max(),
            factor,
        ),
        factor <= 0 ==> b.min() == scale_coord(a.max(), factor) && b.max() == scale_coord(
            a.min(),
            factor,
        ),
{
    lemma_min_max_are_extreme(a);
    let lo = choose|k: int| 0 <= k < a.len() && #[trigger] a[k] == a.min();
    let hi = choose|k: int| 0 <= k < a.len() && #[trigger] a[k] == a.max();
    assert(b[lo] == scale_coord(a.min(), factor));
    assert(b[hi] == scale_coord(a.max(), factor));
    assert forall|k: int| 0 <= k < b.len() implies (factor >= 0 ==> scale_coord(a.min(), factor)
        <= #[trigger] b[k] <= scale_coord(a.max(), factor)) && (factor <= 0 ==> scale_coord(
        a.max(),
        factor,
    ) <= b[k] <= scale_coord(a.min(), factor)) by {
        assert(a.min() <= a[k] <= a.max());
        lemma_scale_coord_monotone(a.min(), a[k], factor);
        lemma_scale_coord_monotone(a[k], a.max(), factor);
    }
    if factor >= 0 {
        lemma_extreme_is_min_max(b, scale_coord(a.min(), factor), true);
        lemma_extreme_is_min_max(b, scale_coord(a.max(), factor), false);
    }
    if factor <= 0 {
        lemma_extreme_is_min_max(b, scale_coord(a.max(), factor), true);
        lemma_extreme_is_min_max(b, scale_coord(a.min(), factor), false);
    }
}

/// Scaling by factors that are not negative and then measuring gives the same
/// box as measuring and then scaling the box.
pub proof fn lemma_scaling_moves_bounds(
    after: Seq<Vertex>,
    before: Seq<Vertex>,
    sx: int,
    sy: int,
    sz: int,
)
    requires
        before.len() > 0,
        sx >= 0,
        sy >= 0,
        sz >= 0,
        is_scaling(after, before, sx, sy, sz),
    ensures
        xs(after).min() == scale_coord(xs(before).min(), sx),
        ys(after).min() == scale_coord(ys(before).min(), sy),
        zs(after).min() == scale_coord(zs(before).min(), sz),
        xs(after).max() == scale_coord(xs(before).max(), sx),
        ys(after).max() == scale_coord(ys(before).max(), sy),
        zs(after).max() == scale_coord(zs(before).max(), sz),
{
    assert forall|k: int| 0 <= k < before.len() implies #[trigger] xs(after)[k] == scale_coord(
        xs(before)[k],
        sx,
    ) && #[trigger] ys(after)[k] == scale_coord(ys(before)[k], sy) && #[trigger] zs(after)[k]
        == scale_coord(zs(before)[k], sz) by {
        assert(after[k].x == scale_coord(before[k].x as int, sx));
    }
    lemma_scaled_min_max(xs(before), xs(after), sx);
    lemma_scaled_min_max(ys(before), ys(after), sy);
    lemma_scaled_min_max(zs(before), zs(after), sz);
}

/// After a mesh is moved down by its lowest height, its lowest height is zero.
pub proof fn lemma_home_z_floor(before: Seq<Vertex>, after: Seq<Vertex>)
    requires
        before.len() > 0,
        is_translation(after, before, 0, 0, -zs(before).min()),
    ensures
        zs(after).min() == 0,
{
    lemma_translation_moves_bounds(after, before, 0, 0, -zs(before).min());
}

/// Translating by `(dx, dy, dz)` and then by `(-dx, -dy, -dz)` gives back the
/// vertices one started from.
pub proof fn lemma_translate_round_trip(
    start: Seq<Vertex>,
    moved: Seq<Vertex>,
    back: Seq<Vertex>,
    dx: int,
    dy: int,
    dz: int,
)
    requires
        is_translation(moved, start, dx, dy, dz),
        is_translation(back, moved, -dx, -dy, -dz),
    ensures
        back == start,
{
    assert forall|k: int| 0 <= k < start.len() implies back[k] == start[k] by {
        assert(moved[k].x == start[k].x + dx);
        assert(back[k].x == moved[k].x - dx);
    }
    assert(back =~= start);
}

/// A mesh that was moved can always be moved back: the way back keeps every
/// vertex within the coordinate range.
pub proof fn lemma_translate_back_fits(
    start: Seq<Vertex>,
    moved: Seq<Vertex>,
    dx: int,
    dy: int,
    dz: int,
)
    requires
        all_in_range(start),
        is_translation(moved, start, dx, dy, dz),
    ensures
        translation_fits(moved, -dx, -dy, -dz),
{
    assert forall|i: int| 0 <= i < moved.len() implies in_range((#[trigger] moved[i]).x - dx)
        && in_range(moved[i].y - dy) && in_range(moved[i].z - dz) by {
        assert(start[i].in_range());
    }
}

/// Scaling every axis by the factor one changes nothing.
pub proof fn lemma_scale_by_one(before: Seq<Vertex>, after: Seq<Vertex>)
    requires
        is_scaling(after, before, ONE as int, ONE as int, ONE as int),
    ensures
        after == before,
{
    assert forall|k: int| 0 <= k < before.len() implies after[k] == before[k] by {
        assert(after[k].x == scale_coord(before[k].x as int, ONE as int));
        lemma_scale_coord_by_one(before[k].x as int);
        lemma_scale_coord_by_one(before[k].y as int);
        lemma_scale_coord_by_one(before[k].z as int);
    }
    assert(after =~= before);
}

/// A coordinate times one is that coordinate.
pub proof fn lemma_scale_coord_by_one(c: int)
    ensures
        scale_coord(c, ONE as int) == c,
{
    crate::fixed::lemma_floor_div_unique(c * ONE, ONE as int, c);
}

/// Whether a wide intermediate result is a coordinate.
fn coord_fits(c: i128) -> (r: bool)
    ensures
        r == in_range(c as int),
{
    -(COORD_MAX as i128) <= c && c <= COORD_MAX as i128
}

/// A coordinate within range multiplied by a fixed-point factor, rounded down.
fn scaled_coord(c: i64, factor: i64) -> (r: i128)
    requires
        in_range(c as int),
    ensures
        r == scale_coord(c as int, factor as int),
{
    proof {
        lemma_product_bound(c as int, factor as int, COORD_MAX as int, 0x8000_0000_0000_0000);
    }
    div_floor((c as i128) * (factor as i128), ONE as i128)
}

/// Tests whether a vertex lies within the coordinate range.
pub fn vertex_in_range(v: &Vertex) -> (r: bool)
    ensures
        r == v.in_range(),
{
    -COORD_MAX <= v.x && v.x <= COORD_MAX && -COORD_MAX <= v.y && v.y <= COORD_MAX && -COORD_MAX
        <= v.z && v.z <= COORD_MAX
}

} // verus!
