//! Slicing: from a positioned mesh and print settings to per-layer geometry.
//!
//! - [`layers`] plans the thickness of each layer.
//! - [`section`] cuts a mesh with a horizontal plane into segments.
//! - [`contour`] stitches the segments of one cut into contours, finding
//!   neighbours through the index of [`adjacency`]; [`stitching`] holds what
//!   is proved of every stitching.
//! - [`Slicer`] turns meshes into the directives of an extrusion print.
//! - [`dlp_slicer`] turns a mesh into the rasters of a resin print.
use vstd::prelude::*;
use crate::gcode::{DirectiveView, GcodeWriter};
use crate::fixed::COORD_MAX;
use crate::geometry::{zs, Edge, Point, STLMesh, Triangle, lemma_min_max_in_range};
use crate::settings::{FloatOrVecOfFloats, Settings};
use crate::slicer::contour::{
    assemble, assembled, check_manifold, is_closed, is_manifold, outline, Contour, Link,
};
use crate::slicer::layers::{
    height_of, heights_fault, plan, plannable, planned, uniform_height, uniform_thickness,
    lemma_planned_height_bounds,
};
use crate::slicer::section::{coplanar_count, cross_section, degenerate_count, sections};
use crate::slicer::stitching::lemma_manifold_walks_close;

pub mod adjacency;
pub mod contour;
pub mod dlp_slicer;
pub mod layers;
pub mod section;
pub mod stitching;

verus! {

/// The axis letter of the feed rate in a layer change.
pub const LAYER_FEED_AXIS: char = 'F';

/// The feed rate of a layer change.
pub const LAYER_FEED_RATE: i64 = 1_200_000_000;

/// The speed of a perimeter move.
pub const PERIMETER_SPEED: i64 = 555_000_000;

/// The extrusion amount of a perimeter move.
pub const PERIMETER_EXTRUSION: i64 = 1_200_000_000;

/// A setting that a slicing run reads.
#[derive(Clone, Copy, Debug, PartialEq, Eq, Structural)]
pub enum SettingsField {
    /// The thickness of the first layer.
    Layer0Height,
    /// The thickness of the other layers.
    LayerNHeight,
    /// The pixel grid.
    XYResolution,
}

/// Why a slicing run, or one mesh of it, could not be carried out.
#[derive(Clone, Copy, Debug, PartialEq, Eq, Structural)]
pub enum SliceError {
    /// The named setting is missing or holds a value that cannot be worked
    /// with.
    InvalidSettings(SettingsField),
    /// The mesh has no vertices.
    EmptyMesh,
}

/// The extruding move to `p` at height `z`.
pub open spec fn move_to(p: Point, z: i64) -> DirectiveView {
    DirectiveView::Perimeter {
        x: p.x,
        y: p.y,
        z,
        s: PERIMETER_SPEED,
        extrusion: PERIMETER_EXTRUSION,
    }
}

/// The moves that trace one contour: to each of its points in order and, if
/// it is closed, back to the first.
pub open spec fn contour_moves(points: Seq<Point>, closed: bool, z: i64) -> Seq<DirectiveView> {
    let along = Seq::new(points.len(), |i: int| move_to(points[i], z));
    if closed && points.len() > 0 {
        along.push(move_to(points[0], z))
    } else {
        along
    }
}

/// The moves that trace the contours of the walks `walks` over `segs`, one
/// contour after the other.
pub open spec fn perimeter_moves(segs: Seq<Edge>, walks: Seq<Seq<Link>>, z: i64) -> Seq<
    DirectiveView,
>
    decreases walks.len(),
{
    if walks.len() == 0 {
        Seq::empty()
    } else {
        perimeter_moves(segs, walks.drop_last(), z) + contour_moves(
            outline(segs, walks.last()),
            is_closed(segs, walks.last()),
            z,
        )
    }
}

/// Whether the cross-section `segs` shows a defect of the surface: a corner
/// that does not join exactly two segment ends, or a walk that does not close.
pub open spec fn defective(segs: Seq<Edge>) -> bool {
    !is_manifold(segs) || exists|i: int|
        0 <= i < assembled(segs).len() && !is_closed(segs, #[trigger] assembled(segs)[i])
}

/// A cross-section shows a defect exactly when some corner does not join two
/// segment ends: where every corner does, every walk closes.
pub proof fn lemma_defective_corner(segs: Seq<Edge>)
    requires
        segs.len() <= usize::MAX,
    ensures
        defective(segs) <==> !is_manifold(segs),
{
    if is_manifold(segs) {
        lemma_manifold_walks_close(segs);
    }
}

/// The perimeters of one layer, with what was found wrong on the way.
#[derive(Clone, Debug)]
pub struct LayerOutline {
    /// The contours, in the order they were walked.
    pub contours: Vec<Contour>,
    /// How many triangles lie in the plane and were ignored.
    pub ignored_faces: usize,
    /// How many triangles were skipped for a level edge.
    pub degenerate_triangles: usize,
    /// Whether the layer shows a defect of the surface.
    pub non_manifold: bool,
}

impl LayerOutline {
    /// Whether this is the outline of `tris` at height `z`.
    pub open spec fn describes(&self, tris: Seq<Triangle>, z: int) -> bool {
        let segs = sections(tris, z);
        let walks = assembled(segs);
        &&& self.contours@.len() == walks.len()
        &&& forall|i: int|
            0 <= i < walks.len() ==> (#[trigger] self.contours@[i]).traces(segs, walks[i])
        &&& self.ignored_faces == coplanar_count(tris, z)
        &&& self.degenerate_triangles == degenerate_count(tris, z)
        &&& self.non_manifold == defective(segs)
    }
}

/// Slices meshes into extrusion paths.
#[derive(Clone, Debug)]
pub struct Slicer {
    settings: Settings,
    stl_meshes: Vec<STLMesh>,
}

impl Slicer {
    /// The meshes to slice, in order.
    pub closed spec fn meshes(&self) -> Seq<STLMesh> {
        self.stl_meshes@
    }

    /// The settings the slicer works under.
    pub closed spec fn config(&self) -> Settings {
        self.settings
    }

    /// The thickness of the first layer.
    pub open spec fn first_height(&self) -> i64 {
        self.config().layer_height.layer_0_height
    }

    /// The thickness of the other layers, as the settings give it.
    pub open spec fn later_heights(&self) -> FloatOrVecOfFloats {
        self.config().layer_height.layer_n_height
    }

    /// Whether every mesh meets the mesh invariant.
    pub open spec fn wf(&self) -> bool {
        forall|i: int| 0 <= i < self.meshes().len() ==> (#[trigger] self.meshes()[i]).wf()
    }

    /// A slicer of `stl_meshes` under `settings`.
    pub fn new(settings: Settings, stl_meshes: Vec<STLMesh>) -> (s: Self)
        ensures
            s.meshes() == stl_meshes@,
            s.config() == settings,
    {
        Self { settings, stl_meshes }
    }

    /// The settings the slicer works under.
    pub fn settings(&self) -> (r: &Settings)
        ensures
            *r == self.config(),
    {
        &self.settings
    }

    /// The meshes to slice.
    pub fn stl_meshes(&self) -> (r: &Vec<STLMesh>)
        ensures
            r@ == self.meshes(),
    {
        &self.stl_meshes
    }

    /// The thickness of each layer of `stl`, bottom to top.
    ///
    /// Fails with `InvalidSettings`, naming the setting at fault, unless the
    /// layer heights are plannable, and otherwise with `EmptyMesh` when `stl`
    /// has no vertices.
    pub fn layer_heights(&self, stl: &STLMesh) -> (r: Result<Vec<i64>, SliceError>)
        ensures
            match r {
                Ok(heights) => heights@ == planned(
                    zs(stl.vertex_seq()).max() - zs(stl.vertex_seq()).min(),
                    self.first_height(),
                    uniform_height(self.later_heights()) as i64,
                ),
                Err(e) => e == match heights_fault(
                    self.first_height() as int,
                    self.later_heights(),
                ) {
                    Some(field) => SliceError::InvalidSettings(field),
                    None => SliceError::EmptyMesh,
                },
            },
            r is Ok <==> plannable(self.first_height() as int, self.later_heights())
                && stl.vertex_seq().len() > 0,
    {
        let first = self.settings.layer_height.layer_0_height;
        if let Err(e) = uniform_thickness(first, &self.settings.layer_height.layer_n_height) {
            return Err(e);
        }
        match stl.bounding_box() {
            Ok(bb) => plan(&bb, first, &self.settings.layer_height.layer_n_height),
            Err(_) => Err(SliceError::EmptyMesh),
        }
    }

    /// Cuts `stl` at height `z`, stitches the cut into contours, and hands the
    /// moves that trace them to `gcode_writer`.
    pub fn perimeters(&self, stl: &STLMesh, gcode_writer: &mut GcodeWriter, z: i64) -> (r:
        LayerOutline)
        requires
            stl.wf(),
        ensures
            r.describes(stl.triangle_seq(), z as int),
            final(gcode_writer)@ == old(gcode_writer)@ + perimeter_moves(
                sections(stl.triangle_seq(), z as int),
                assembled(sections(stl.triangle_seq(), z as int)),
                z,
            ),
            final(gcode_writer).target() == old(gcode_writer).target(),
    {
        let cut = cross_section(stl, z);
        let contours = assemble(&cut.segments);
        let manifold = check_manifold(&cut.segments);
        let ghost segs = cut.segments@;
        let ghost walks = assembled(segs);
        let mut all_closed = true;
        let mut i: usize = 0;
        proof {
            assert(walks.take(0) =~= Seq::<Seq<Link>>::empty());
            assert(old(gcode_writer)@ + Seq::<DirectiveView>::empty() =~= old(gcode_writer)@);
        }
        while i < contours.len()
            invariant
                i <= contours.len(),
                contours@.len() == walks.len(),
                forall|k: int|
                    0 <= k < walks.len() ==> (#[trigger] contours@[k]).traces(segs, walks[k]),
                gcode_writer@ == old(gcode_writer)@ + perimeter_moves(
                    segs,
                    walks.take(i as int),
                    z,
                ),
                gcode_writer.target() == old(gcode_writer).target(),
                all_closed == (forall|k: int| 0 <= k < i ==> is_closed(segs, #[trigger] walks[k])),
            decreases contours.len() - i,
        {
            let c = &contours[i];
            assert(c.traces(segs, walks[i as int]));
            let ghost before = gcode_writer@;
            let mut j: usize = 0;
            proof {
                assert(before + Seq::<DirectiveView>::empty() =~= before);
            }
            while j < c.points.len()
                invariant
                    j <= c.points@.len(),
                    gcode_writer@ == before + Seq::new(
                        j as nat,
                        |k: int| move_to(c.points@[k], z),
                    ),
                    gcode_writer.target() == old(gcode_writer).target(),
                decreases c.points.len() - j,
            {
                let p = c.points[j];
                gcode_writer.write_perimeter(p.x, p.y, z, PERIMETER_SPEED, PERIMETER_EXTRUSION);
                j += 1;
                proof {
                    assert(gcode_writer@ =~= before + Seq::new(
                        j as nat,
                        |k: int| move_to(c.points@[k], z),
                    ));
                }
            }
            if c.closed && c.points.len() > 0 {
                let p = c.points[0];
                gcode_writer.write_perimeter(p.x, p.y, z, PERIMETER_SPEED, PERIMETER_EXTRUSION);
            } else {
                if !c.closed {
                    all_closed = false;
                }
            }
            proof {
                assert(gcode_writer@ =~= before + contour_moves(c.points@, c.closed, z));
                assert(walks.take(i + 1).drop_last() =~= walks.take(i as int));
                assert(walks.take(i + 1).last() == walks[i as int]);
                assert(before + contour_moves(c.points@, c.closed, z) =~= old(gcode_writer)@
                    + perimeter_moves(segs, walks.take(i + 1), z));
            }
            i += 1;
        }
        proof {
            assert(walks.take(i as int) =~= walks);
        }
        LayerOutline {
            contours,
            ignored_faces: cut.ignored_faces,
            degenerate_triangles: cut.degenerate_triangles,
            non_manifold: !manifold || !all_closed,
        }
    }
}

/// What slicing one layer found.
#[derive(Clone, Copy, Debug, PartialEq, Eq, Structural)]
pub struct LayerRecord {
    /// The index of the layer, from zero at the bottom.
    pub n: usize,
    /// The absolute height of the layer's plane.
    pub z: i64,
    /// How many triangles lie in the plane and were ignored.
    pub ignored_faces: usize,
    /// How many triangles were skipped for a level edge.
    pub degenerate_triangles: usize,
    /// Whether the layer shows a defect of the surface.
    pub non_manifold: bool,
}

impl LayerRecord {
    /// Whether this is the record of layer `n` of `tris` under the plan
    /// `heights`.
    pub open spec fn records(&self, tris: Seq<Triangle>, heights: Seq<i64>, n: int) -> bool {
        &&& self.n == n
        &&& self.z == height_of(heights, n)
        &&& self.ignored_faces == coplanar_count(tris, self.z as int)
        &&& self.degenerate_triangles == degenerate_count(tris, self.z as int)
        &&& self.non_manifold == defective(sections(tris, self.z as int))
    }
}

/// What became of one mesh of a run.
#[derive(Clone, Debug)]
pub enum MeshReport {
    /// The mesh has no vertices and was passed over.
    Skipped,
    /// The mesh was sliced; one record per layer, bottom to top.
    Sliced(Vec<LayerRecord>),
}

/// The planned thicknesses of the layers of `mesh`.
pub open spec fn mesh_heights(mesh: STLMesh, first: i64, uniform: i64) -> Seq<i64> {
    planned(zs(mesh.vertex_seq()).max() - zs(mesh.vertex_seq()).min(), first, uniform)
}

impl MeshReport {
    /// Whether this is the report of `mesh` under the given thicknesses.
    pub open spec fn reports(&self, mesh: STLMesh, first: i64, uniform: i64) -> bool {
        match *self {
            MeshReport::Skipped => mesh.vertex_seq().len() == 0,
            MeshReport::Sliced(layers) => {
                &&& mesh.vertex_seq().len() > 0
                &&& layers@.len() == mesh_heights(mesh, first, uniform).len()
                &&& forall|j: int|
                    0 <= j < layers@.len() ==> (#[trigger] layers@[j]).records(
                        mesh.triangle_seq(),
                        mesh_heights(mesh, first, uniform),
                        j,
                    )
            },
        }
    }
}

/// The outcome of a run: the directives it emitted and a report per mesh.
#[derive(Clone, Debug)]
pub struct SliceReport {
    pub writer: GcodeWriter,
    pub meshes: Vec<MeshReport>,
}

/// The directives of layer `n` at height `z`: the layer change, then the
/// moves that trace the perimeters.
pub open spec fn layer_directives(tris: Seq<Triangle>, n: int, z: i64) -> Seq<DirectiveView> {
    seq![
        DirectiveView::LayerChange {
            n: n as usize,
            z,
            feed_axis: LAYER_FEED_AXIS,
            feed_rate: LAYER_FEED_RATE,
        },
    ] + perimeter_moves(sections(tris, z as int), assembled(sections(tris, z as int)), z)
}

/// The directives of the first `count` layers of the plan `heights`.
pub open spec fn layers_directives(tris: Seq<Triangle>, heights: Seq<i64>, count: int) -> Seq<
    DirectiveView,
>
    decreases count,
{
    if count <= 0 {
        Seq::empty()
    } else {
        layers_directives(tris, heights, count - 1) + layer_directives(
            tris,
            count - 1,
            height_of(heights, count - 1) as i64,
        )
    }
}

/// The directives of one mesh: those of all its layers, or none if it has no
/// vertices.
pub open spec fn mesh_directives(mesh: STLMesh, first: i64, uniform: i64) -> Seq<DirectiveView> {
    if mesh.vertex_seq().len() == 0 {
        Seq::empty()
    } else {
        layers_directives(
            mesh.triangle_seq(),
            mesh_heights(mesh, first, uniform),
            mesh_heights(mesh, first, uniform).len() as int,
        )
    }
}

/// The directives of the first `count` meshes, one mesh after the other.
pub open spec fn run_directives(meshes: Seq<STLMesh>, first: i64, uniform: i64, count: int) -> Seq<
    DirectiveView,
>
    decreases count,
{
    if count <= 0 {
        Seq::empty()
    } else {
        run_directives(meshes, first, uniform, count - 1) + mesh_directives(
            meshes[count - 1],
            first,
            uniform,
        )
    }
}

impl Slicer {
    /// Slices every layer of `stl` under the plan `heights`, handing the
    /// directives to `gcode_writer`.
    fn slice_mesh(&self, stl: &STLMesh, gcode_writer: &mut GcodeWriter, heights: &Vec<i64>) -> (r:
        Vec<LayerRecord>)
        requires
            stl.wf(),
            stl.vertex_seq().len() > 0,
            0 < uniform_height(self.later_heights()) <= COORD_MAX,
            -COORD_MAX <= self.first_height() <= COORD_MAX,
            heights@ == mesh_heights(
                *stl,
                self.first_height(),
                uniform_height(self.later_heights()) as i64,
            ),
        ensures
            MeshReport::Sliced(r).reports(
                *stl,
                self.first_height(),
                uniform_height(self.later_heights()) as i64,
            ),
            final(gcode_writer)@ == old(gcode_writer)@ + mesh_directives(
                *stl,
                self.first_height(),
                uniform_height(self.later_heights()) as i64,
            ),
            final(gcode_writer).target() == old(gcode_writer).target(),
    {
        let ghost first = self.first_height();
        let ghost uniform = uniform_height(self.later_heights()) as i64;
        let ghost total = zs(stl.vertex_seq()).max() - zs(stl.vertex_seq()).min();
        let ghost tris = stl.triangle_seq();
        let mut records: Vec<LayerRecord> = Vec::new();
        let mut z: i64 = 0;
        let mut n: usize = 0;
        proof {
            lemma_min_max_in_range(stl.vertex_seq());
            assert(old(gcode_writer)@ + Seq::<DirectiveView>::empty() =~= old(gcode_writer)@);
        }
        while n < heights.len()
            invariant
                stl.wf(),
                tris == stl.triangle_seq(),
                0 < uniform <= COORD_MAX,
                -COORD_MAX <= first <= COORD_MAX,
                0 <= total <= 2 * COORD_MAX,
                heights@ == planned(total, first, uniform),
                n <= heights@.len(),
                n == 0 ==> z == 0,
                n > 0 ==> z == height_of(heights@, n - 1),
                records@.len() == n,
                forall|j: int|
                    0 <= j < n ==> (#[trigger] records@[j]).records(tris, heights@, j),
                gcode_writer@ == old(gcode_writer)@ + layers_directives(tris, heights@, n as int),
                gcode_writer.target() == old(gcode_writer).target(),
            decreases heights.len() - n,
        {
            proof {
                lemma_planned_height_bounds(total, first, uniform, n as int);
                if n > 0 {
                    lemma_planned_height_bounds(total, first, uniform, n - 1);
                }
            }
            z = z + heights[n];
            let ghost before = gcode_writer@;
            gcode_writer.write_layer_change(n, z, LAYER_FEED_AXIS, LAYER_FEED_RATE);
            let outline = self.perimeters(stl, gcode_writer, z);
            records.push(
                LayerRecord {
                    n,
                    z,
                    ignored_faces: outline.ignored_faces,
                    degenerate_triangles: outline.degenerate_triangles,
                    non_manifold: outline.non_manifold,
                },
            );
            proof {
                assert(gcode_writer@ =~= before + layer_directives(tris, n as int, z));
                assert(before + layer_directives(tris, n as int, z) =~= old(gcode_writer)@
                    + layers_directives(tris, heights@, n + 1));
            }
            n += 1;
        }
        records
    }

    /// Slices every mesh, layer by layer, into the directives of one file.
    ///
    /// The record opens with the header. Each mesh that has vertices then
    /// contributes, per layer and bottom to top, a layer change and the moves
    /// that trace the layer's perimeters; a mesh without vertices is passed
    /// over. Fails with `InvalidSettings`, naming the setting at fault and
    /// before any mesh is looked at, unless the layer heights are plannable.
    pub fn slice(&self, gcode_file: &str) -> (r: Result<SliceReport, SliceError>)
        requires
            self.wf(),
        ensures
            match r {
                Ok(report) => {
                    &&& report.writer.target() == gcode_file@
                    &&& report.writer@ == seq![DirectiveView::Header] + run_directives(
                        self.meshes(),
                        self.first_height(),
                        uniform_height(self.later_heights()) as i64,
                        self.meshes().len() as int,
                    )
                    &&& report.meshes@.len() == self.meshes().len()
                    &&& forall|i: int|
                        0 <= i < report.meshes@.len() ==> (#[trigger] report.meshes@[i]).reports(
                            self.meshes()[i],
                            self.first_height(),
                            uniform_height(self.later_heights()) as i64,
                        )
                },
                Err(e) => match heights_fault(self.first_height() as int, self.later_heights()) {
                    Some(field) => e == SliceError::InvalidSettings(field),
                    None => false,
                },
            },
            r is Ok <==> plannable(self.first_height() as int, self.later_heights()),
    {
        let first = self.settings.layer_height.layer_0_height;
        let uniform = match uniform_thickness(first, &self.settings.layer_height.layer_n_height) {
            Ok(h) => h,
            Err(e) => {
                return Err(e);
            },
        };
        let mut writer = GcodeWriter::new(gcode_file);
        writer.write_header();
        let mut meshes: Vec<MeshReport> = Vec::new();
        let mut i: usize = 0;
        proof {
            assert(writer@ =~= seq![DirectiveView::Header] + Seq::<DirectiveView>::empty());
        }
        while i < self.stl_meshes.len()
            invariant
                self.wf(),
                first == self.first_height(),
                uniform == uniform_height(self.later_heights()),
                plannable(first as int, self.later_heights()),
                i <= self.stl_meshes@.len(),
                writer.target() == gcode_file@,
                writer@ == seq![DirectiveView::Header] + run_directives(
                    self.meshes(),
                    first,
                    uniform,
                    i as int,
                ),
                meshes@.len() == i,
                forall|k: int|
                    0 <= k < i ==> (#[trigger] meshes@[k]).reports(
                        self.meshes()[k],
                        first,
                        uniform,
                    ),
            decreases self.stl_meshes.len() - i,
        {
            let stl = &self.stl_meshes[i];
            assert(self.meshes()[i as int].wf());
            let ghost before = writer@;
            match self.layer_heights(stl) {
                Ok(heights) => {
                    let layers = self.slice_mesh(stl, &mut writer, &heights);
                    meshes.push(MeshReport::Sliced(layers));
                },
                Err(_) => {
                    meshes.push(MeshReport::Skipped);
                },
            }
            proof {
                assert(writer@ =~= before + mesh_directives(*stl, first, uniform));
                assert(before + mesh_directives(*stl, first, uniform) =~= seq![
                    DirectiveView::Header,
                ] + run_directives(self.meshes(), first, uniform, i + 1));
            }
            i += 1;
        }
        Ok(SliceReport { writer, meshes })
    }
}

} // verus!
