//! A mesh-to-raster slicing engine: horizontal cross-sections of triangulated
//! solids, rasterised into binary mask images, one per layer.
//!
//! All lengths are integers on a fixed grid (see `geometry::GRID_UNITS_PER_MM`),
//! so that every comparison and every rounding step is exact and provable.

pub mod geometry;
pub mod intersect;
pub mod schedule;
pub mod assemble;
pub mod raster;
pub mod slicer;

pub use geometry::{Point3, Triangle, GRID_UNITS_PER_MM};
pub use raster::MaskImage;
pub use slicer::{CPUSlicer, SliceError, SliceLayer};
