//! Rounded corners and soft drop shadows for RGBA rasters.
//!
//! The crate works on plain `Raster` values (width, height, and a dense
//! row-major RGBA byte buffer). `round` feathers the alpha channel outside
//! four inscribed quarter circles, `synthesize` derives a black shadow layer
//! from a raster's alpha silhouette, and `compose` overlays a rounded raster
//! on its shadow on a canvas large enough for both. `apply` sequences the
//! three stages from one parameter set. Decoding and encoding image files is
//! left to callers.

pub mod compose;
pub mod math;
pub mod pipeline;
pub mod raster;
pub mod round;
pub mod shadow;
