//! A depth-buffered raster for a shaded, rotating torus.
//!
//! A frame is drawn from points of the torus's surface that have already been
//! projected: each comes with its screen coordinates, its inverse depth and
//! its luminance, all four as IEEE 754 binary32 words. The raster keeps, for
//! every pixel, the nearest point that faces the light, and colours it from a
//! ramp of twelve colours by its luminance.
//!
//! * [`binary32`]: binary32 words and their exact operations.
//! * [`grid`]: row-major addressing of the screen.
//! * [`palette`]: the colour ramp and the bucket of a luminance.
//! * [`raster`]: samples, the depth buffer, and the rendering of a frame.
//! * [`theorems`]: what holds of every frame.

pub mod binary32;
pub mod grid;
pub mod palette;
pub mod raster;
pub mod theorems;
