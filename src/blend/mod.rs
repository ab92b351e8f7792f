//! Blending of textures along the value of a guide texture.

pub mod stops;
pub mod guided;
