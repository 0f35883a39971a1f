//! Raster slicing: per layer, which points of a pixel grid lie inside a mesh.
use vstd::prelude::*;
use crate::fixed::{in_range, lemma_product_bound, COORD_MAX};
use crate::geometry::{zs, Point, STLMesh, Vertex, lemma_min_max_in_range};
use crate::geometry::ray::encloses;
use crate::settings::{FloatOrVecOfFloats, Settings, XYResolution};
use crate::slicer::layers::{
    height_of, heights_fault, plan, plannable, planned, uniform_height, uniform_thickness,
    lemma_planned_height_bounds,
};
use crate::slicer::{mesh_heights, SettingsField, SliceError};

verus! {

/// The coordinate of the centre of pixel `i` along an axis of pitch `pitch`:
/// `i` and a half times the pitch, rounded down.
pub open spec fn sample(i: int, pitch: int) -> int {
    i * pitch + pitch / 2
}

/// Whether the centres of `pixels` pixels of pitch `pitch` all lie within the
/// coordinate range: there are none, or the first and the last do.
pub open spec fn axis_fits(pixels: int, pitch: int) -> bool {
    pixels >= 0 && (pixels > 0 ==> in_range(sample(0, pitch)) && in_range(
        sample(pixels - 1, pitch),
    ))
}

/// Whether a sample grid can be laid out for `resolution`.
pub open spec fn gridable(resolution: Option<XYResolution>) -> bool {
    match resolution {
        Some(r) => axis_fits(r.x_pixels as int, r.x_pixel_resolution as int) && axis_fits(
            r.y_pixels as int,
            r.y_pixel_resolution as int,
        ),
        None => false,
    }
}

/// Whether `grid` is the sample grid of `r`: the pixel centres, column by
/// column.
pub open spec fn is_grid(grid: Seq<Point>, r: XYResolution) -> bool {
    &&& grid.len() == r.x_pixels * r.y_pixels
    &&& forall|i: int, j: int|
        0 <= i < r.x_pixels && 0 <= j < r.y_pixels ==> #[trigger] grid[i * r.y_pixels + j] == (
        Point {
            x: sample(i, r.x_pixel_resolution as int) as i64,
            y: sample(j, r.y_pixel_resolution as int) as i64,
        })
}

/// Between the first and the last pixel of an axis that fits, every pixel
/// centre is within the coordinate range.
pub proof fn lemma_samples_in_range(pixels: int, pitch: int, i: int)
    requires
        axis_fits(pixels, pitch),
        0 <= i < pixels,
    ensures
        in_range(sample(i, pitch)),
{
    let last = pixels - 1;
    if pitch >= 0 {
        assert(0 <= i * pitch <= last * pitch) by (nonlinear_arith)
            requires
                0 <= i <= last,
                pitch >= 0,
        ;
    } else {
        assert(last * pitch <= i * pitch <= 0) by (nonlinear_arith)
            requires
                0 <= i <= last,
                pitch < 0,
        ;
    }
}

/// Whether `image` tells, for each point of `grid`, whether it lies inside
/// `mesh` at height `z`.
pub open spec fn is_image(image: Seq<bool>, grid: Seq<Point>, mesh: STLMesh, z: i64) -> bool {
    &&& image.len() == grid.len()
    &&& forall|k: int|
        0 <= k < grid.len() ==> #[trigger] image[k] == encloses(
            mesh.triangle_seq(),
            Vertex { x: grid[k].x, y: grid[k].y, z },
        )
}

/// The rasters of a print: the sample grid and, per layer, which of its
/// points are occupied.
#[derive(Clone, Debug)]
pub struct Rasters {
    /// The sample points, pixel by pixel.
    pub grid: Vec<Point>,
    /// One image per layer, bottom to top; each has one entry per sample point.
    pub images: Vec<Vec<bool>>,
}

/// Slices one mesh into per-layer occupancy rasters.
#[derive(Clone, Debug)]
pub struct DLPSlicer {
    settings: Settings,
    stl_mesh: STLMesh,
}

impl DLPSlicer {
    /// The mesh to slice.
    pub closed spec fn mesh(&self) -> STLMesh {
        self.stl_mesh
    }

    /// The settings the slicer works under.
    pub closed spec fn config(&self) -> Settings {
        self.settings
    }

    /// The thickness of the first layer.
    pub open spec fn first_height(&self) -> i64 {
        self.config().layer_height.layer_0_height
    }

    /// The thickness of the other layers, as the settings give it.
    pub open spec fn later_heights(&self) -> FloatOrVecOfFloats {
        self.config().layer_height.layer_n_height
    }

    /// The pixel grid, as the settings give it.
    pub open spec fn resolution(&self) -> Option<XYResolution> {
        self.config().xy_resolution
    }

    /// Whether the mesh meets the mesh invariant.
    pub open spec fn wf(&self) -> bool {
        self.mesh().wf()
    }

    /// A raster slicer of `stl_mesh` under `settings`.
    pub fn new(settings: Settings, stl_mesh: STLMesh) -> (s: Self)
        ensures
            s.mesh() == stl_mesh,
            s.config() == settings,
    {
        Self { settings, stl_mesh }
    }

    /// The mesh to slice.
    pub fn stl_mesh(&self) -> (r: &STLMesh)
        ensures
            *r == self.mesh(),
    {
        &self.stl_mesh
    }

    /// The settings the slicer works under.
    pub fn settings(&self) -> (r: &Settings)
        ensures
            *r == self.config(),
    {
        &self.settings
    }

    /// The sample points of a layer: the centre of every pixel, column by
    /// column.
    ///
    /// Fails with `InvalidSettings` unless the settings hold a pixel grid whose
    /// counts are not negative and whose pixel centres lie within the
    /// coordinate range.
    pub fn planar_grid(&self) -> (r: Result<Vec<Point>, SliceError>)
        ensures
            match r {
                Ok(grid) => self.resolution() is Some && is_grid(
                    grid@,
                    self.resolution()->Some_0,
                ),
                Err(e) => e == SliceError::InvalidSettings(SettingsField::XYResolution),
            },
            r is Ok <==> gridable(self.resolution()),
    {
        let res = match &self.settings.xy_resolution {
            Some(res) => res,
            None => {
                return Err(SliceError::InvalidSettings(SettingsField::XYResolution));
            },
        };
        if !axis_in_range(res.x_pixels, res.x_pixel_resolution) || !axis_in_range(
            res.y_pixels,
            res.y_pixel_resolution,
        ) {
            return Err(SliceError::InvalidSettings(SettingsField::XYResolution));
        }
        let n_x = res.x_pixels;
        let n_y = res.y_pixels;
        let d_x = res.x_pixel_resolution;
        let d_y = res.y_pixel_resolution;
        let mut grid: Vec<Point> = Vec::new();
        let mut i: i32 = 0;
        while i < n_x
            invariant
                axis_fits(n_x as int, d_x as int),
                axis_fits(n_y as int, d_y as int),
                0 <= i <= n_x,
                grid@.len() == i * n_y,
                forall|a: int, b: int|
                    0 <= a < i && 0 <= b < n_y ==> #[trigger] grid@[a * n_y + b] == (Point {
                        x: sample(a, d_x as int) as i64,
                        y: sample(b, d_y as int) as i64,
                    }),
            decreases n_x - i,
        {
            let x = centre(n_x, d_x, i);
            let mut j: i32 = 0;
            while j < n_y
                invariant
                    axis_fits(n_x as int, d_x as int),
                    axis_fits(n_y as int, d_y as int),
                    0 <= i < n_x,
                    0 <= j <= n_y,
                    x == sample(i as int, d_x as int),
                    grid@.len() == i * n_y + j,
                    forall|a: int, b: int|
                        0 <= a < i && 0 <= b < n_y ==> #[trigger] grid@[a * n_y + b] == (Point {
                            x: sample(a, d_x as int) as i64,
                            y: sample(b, d_y as int) as i64,
                        }),
                    forall|b: int|
                        0 <= b < j ==> #[trigger] grid@[i * n_y + b] == (Point {
                            x: sample(i as int, d_x as int) as i64,
                            y: sample(b, d_y as int) as i64,
                        }),
                decreases n_y - j,
            {
                let y = centre(n_y, d_y, j);
                let ghost before = grid@;
                grid.push(Point { x, y });
                proof {
                    assert forall|a: int, b: int|
                        0 <= a < i && 0 <= b < n_y implies #[trigger] grid@[a * n_y + b] == (Point {
                        x: sample(a, d_x as int) as i64,
                        y: sample(b, d_y as int) as i64,
                    }) by {
                        lemma_cell_index(a, b, i as int, n_y as int);
                        assert(grid@[a * n_y + b] == before[a * n_y + b]);
                    }
                }
                j += 1;
            }
            proof {
                assert(i * n_y + n_y == (i + 1) * n_y) by (nonlinear_arith);
                assert forall|a: int, b: int|
                    0 <= a < i + 1 && 0 <= b < n_y implies #[trigger] grid@[a * n_y + b] == (Point {
                    x: sample(a, d_x as int) as i64,
                    y: sample(b, d_y as int) as i64,
                }) by {
                    if a == i {
                        assert(grid@[i * n_y + b] == (Point {
                            x: sample(i as int, d_x as int) as i64,
                            y: sample(b, d_y as int) as i64,
                        }));
                    }
                }
            }
            i += 1;
        }
        Ok(grid)
    }

    /// For each point of `grid`, whether it lies inside the mesh at height `z`.
    pub fn layer_image(&self, grid: &Vec<Point>, z: i64) -> (image: Vec<bool>)
        requires
            self.wf(),
        ensures
            is_image(image@, grid@, self.mesh(), z),
    {
        let mut image: Vec<bool> = Vec::new();
        let mut k: usize = 0;
        while k < grid.len()
            invariant
                self.wf(),
                k <= grid@.len(),
                image@.len() == k,
                forall|m: int|
                    0 <= m < k ==> #[trigger] image@[m] == encloses(
                        self.mesh().triangle_seq(),
                        Vertex { x: grid@[m].x, y: grid@[m].y, z },
                    ),
            decreases grid.len() - k,
        {
            let p = grid[k];
            image.push(self.stl_mesh.is_inside(Vertex { x: p.x, y: p.y, z }));
            k += 1;
        }
        image
    }

    /// Slices the mesh into one occupancy raster per layer, bottom to top,
    /// each taken at the height where its layer ends.
    ///
    /// Fails with `InvalidSettings`, naming the setting at fault, unless the
    /// layer heights are plannable and the pixel grid can be laid out, and
    /// otherwise with `EmptyMesh` when the mesh has no vertices.
    pub fn slice(&self) -> (r: Result<Rasters, SliceError>)
        requires
            self.wf(),
        ensures
            match r {
                Ok(rasters) => {
                    let heights = mesh_heights(
                        self.mesh(),
                        self.first_height(),
                        uniform_height(self.later_heights()) as i64,
                    );
                    &&& self.resolution() is Some
                    &&& is_grid(rasters.grid@, self.resolution()->Some_0)
                    &&& rasters.images@.len() == heights.len()
                    &&& forall|n: int|
                        0 <= n < rasters.images@.len() ==> is_image(
                            (#[trigger] rasters.images@[n])@,
                            rasters.grid@,
                            self.mesh(),
                            height_of(heights, n) as i64,
                        )
                },
                Err(e) => e == match heights_fault(
                    self.first_height() as int,
                    self.later_heights(),
                ) {
                    Some(field) => SliceError::InvalidSettings(field),
                    None => if !gridable(self.resolution()) {
                        SliceError::InvalidSettings(SettingsField::XYResolution)
                    } else {
                        SliceError::EmptyMesh
                    },
                },
            },
            r is Ok <==> plannable(self.first_height() as int, self.later_heights()) && gridable(
                self.resolution(),
            ) && self.mesh().vertex_seq().len() > 0,
    {
        let first = self.settings.layer_height.layer_0_height;
        let uniform = match uniform_thickness(first, &self.settings.layer_height.layer_n_height) {
            Ok(h) => h,
            Err(e) => {
                return Err(e);
            },
        };
        let grid = match self.planar_grid() {
            Ok(grid) => grid,
            Err(e) => {
                return Err(e);
            },
        };
        let bb = match self.stl_mesh.bounding_box() {
            Ok(bb) => bb,
            Err(_) => {
                return Err(SliceError::EmptyMesh);
            },
        };
        let heights = match plan(&bb, first, &self.settings.layer_height.layer_n_height) {
            Ok(heights) => heights,
            Err(e) => {
                return Err(e);
            },
        };
        let ghost total = zs(self.mesh().vertex_seq()).max() - zs(self.mesh().vertex_seq()).min();
        proof {
            lemma_min_max_in_range(self.mesh().vertex_seq());
        }
        let mut images: Vec<Vec<bool>> = Vec::new();
        let mut z: i64 = 0;
        let mut n: usize = 0;
        while n < heights.len()
            invariant
                self.wf(),
                self.resolution() is Some,
                is_grid(grid@, self.resolution()->Some_0),
                0 < uniform <= COORD_MAX,
                -COORD_MAX <= first <= COORD_MAX,
                0 <= total <= 2 * COORD_MAX,
                heights@ == planned(total, first, uniform),
                n <= heights@.len(),
                n == 0 ==> z == 0,
                n > 0 ==> z == height_of(heights@, n - 1),
                images@.len() == n,
                forall|m: int|
                    0 <= m < n ==> is_image(
                        (#[trigger] images@[m])@,
                        grid@,
                        self.mesh(),
                        height_of(heights@, m) as i64,
                    ),
            decreases heights.len() - n,
        {
            proof {
                lemma_planned_height_bounds(total, first, uniform, n as int);
                if n > 0 {
                    lemma_planned_height_bounds(total, first, uniform, n - 1);
                }
            }
            z = z + heights[n];
            let image = self.layer_image(&grid, z);
            images.push(image);
            n += 1;
        }
        Ok(Rasters { grid, images })
    }
}

/// The cell `(a, b)` of a grid filled column by column comes before the cells
/// of column `i` when `a` is less than `i`.
proof fn lemma_cell_index(a: int, b: int, i: int, n_y: int)
    requires
        0 <= a < i,
        0 <= b < n_y,
    ensures
        0 <= a * n_y + b < i * n_y,
{
    assert(0 <= a * n_y + b < i * n_y) by (nonlinear_arith)
        requires
            0 <= a < i,
            0 <= b < n_y,
    ;
}

/// Tests whether the pixel centres of an axis lie within the coordinate range.
fn axis_in_range(pixels: i32, pitch: i64) -> (r: bool)
    ensures
        r == axis_fits(pixels as int, pitch as int),
{
    if pixels < 0 {
        return false;
    }
    if pixels == 0 {
        return true;
    }
    let half: i128 = half_of(pitch);
    proof {
        lemma_product_bound(pixels as int - 1, pitch as int, 0x8000_0000, 0x8000_0000_0000_0000);
    }
    let last: i128 = (pixels as i128 - 1) * (pitch as i128) + half;
    -(COORD_MAX as i128) <= half && half <= COORD_MAX as i128 && -(COORD_MAX as i128) <= last
        && last <= COORD_MAX as i128
}

/// Half of `pitch`, rounded down.
fn half_of(pitch: i64) -> (h: i128)
    ensures
        h == pitch as int / 2,
{
    let q: i64 = pitch / 2;
    if pitch % 2 < 0 {
        (q - 1) as i128
    } else {
        q as i128
    }
}

/// The centre of pixel `i` of an axis that fits.
fn centre(pixels: i32, pitch: i64, i: i32) -> (c: i64)
    requires
        axis_fits(pixels as int, pitch as int),
        0 <= i < pixels,
    ensures
        c == sample(i as int, pitch as int),
{
    proof {
        lemma_samples_in_range(pixels as int, pitch as int, i as int);
        lemma_product_bound(i as int, pitch as int, 0x8000_0000, 0x8000_0000_0000_0000);
    }
    let c: i128 = (i as i128) * (pitch as i128) + half_of(pitch);
    c as i64
}

} // verus!
