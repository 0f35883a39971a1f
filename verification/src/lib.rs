//! A slicing engine for additive manufacturing.
//!
//! The engine turns a triangle mesh and print settings into per-layer
//! geometry: perimeters to extrude along, or rasters to expose. All of it
//! works on fixed-point integers, so that every result is exact and the same
//! on every machine.
//!
//! - [`fixed`]: the fixed-point convention and rounding division.
//! - [`geometry`]: meshes, their bounding box and transforms, and the
//!   containment test by ray casting.
//! - [`settings`]: the print settings.
//! - [`slicer`]: layer planning, cross-sections, contours, and the two
//!   slicers built from them.
//! - [`gcode`]: the record of directives that the extrusion slicer fills.
//! - [`postprocess`]: how the optional arc-fitting program is called.
pub mod fixed;
pub mod gcode;
pub mod geometry;
pub mod postprocess;
pub mod settings;
pub mod slicer;
