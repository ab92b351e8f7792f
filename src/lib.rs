//! Texture baking on a verified integer core: fixed-point triangle scan
//! conversion, stroked Bresenham lines, winding normalisation of UV-space
//! triangles, the two-phase texel coverage bake, and the bracketing of blend
//! stops along a guide value.

pub mod raster;
pub mod fill_convention;
pub mod line2d;
pub mod uv_triangle;
pub mod geom_tex;
pub mod blend;
pub mod density;

pub use blend::guided::{BlendType, GuidedBlend};
pub use blend::stops::{Stop, Stops, StopsError};
pub use density::SubstanceFilter;
pub use raster::Rasterize;
