//! Print settings: a passive record that the slicers read and never change.
//!
//! Decimal settings are fixed-point integers, in millionths.
use vstd::prelude::*;

verus! {

/// One whole number for every layer, or one per layer.
#[derive(Clone, Debug)]
pub enum IntOrVecOfInts {
    Int(i32),
    VecOfInts(Vec<i32>),
}

/// One decimal number for every layer, or one per layer.
#[derive(Clone, Debug)]
pub enum FloatOrVecOfFloats {
    Float(i64),
    VecOfFLoats(Vec<i64>),
}

/// Settings of the brim. None are defined yet.
#[derive(Clone, Debug)]
pub struct BrimSettings {}

/// Settings of the infill. None are defined yet.
#[derive(Clone, Debug)]
pub struct InfillSettings {}

/// The thickness of the first layer and of the layers above it.
#[derive(Clone, Debug)]
pub struct LayerHeightSettings {
    pub layer_0_height: i64,
    pub layer_n_height: FloatOrVecOfFloats,
}

/// Feed rates and wall counts of the perimeters.
#[derive(Clone, Debug)]
pub struct PerimeterSettings {
    pub layer_0_feed_rate: i64,
    pub layer_n_feed_rate: FloatOrVecOfFloats,
    pub layer_0_wall_line_count: u32,
    pub layer_n_wall_line_count: IntOrVecOfInts,
}

/// Settings of the skirt. None are defined yet.
#[derive(Clone, Debug)]
pub struct SkirtSettings {}

/// The pixel grid of a raster printer: pixel counts and pixel pitch per axis.
#[derive(Clone, Debug)]
pub struct XYResolution {
    pub x_pixels: i32,
    pub y_pixels: i32,
    pub x_pixel_resolution: i64,
    pub y_pixel_resolution: i64,
}

/// Everything a slicing run is configured by.
#[derive(Clone, Debug)]
pub struct Settings {
    pub brim: Option<BrimSettings>,
    pub infill: Option<InfillSettings>,
    pub layer_height: LayerHeightSettings,
    pub material: String,
    pub name: String,
    pub perimeter: Option<PerimeterSettings>,
    pub skirt: Option<SkirtSettings>,
    pub xy_resolution: Option<XYResolution>,
}

} // verus!
