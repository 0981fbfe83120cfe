//! Density-guided warping of point sets in the unit square.
//!
//! Coordinates are fixed-point: a coordinate `c` stands for `c / ONE`, so a
//! point with `u32` coordinates lies in [0,1)². Densities are non-negative
//! integers.

pub mod boxes;
pub mod laws;
pub mod pyramid;
pub mod warp;

pub use boxes::{child_box, lerp, lerp_factor, warp_a_point, Box2, ONE};
pub use pyramid::{downsample, generate_mipmaps, luminance, MAX_ROWS};
pub use warp::{split_cell, warp, WarpError};


