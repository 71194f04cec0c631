//! Region filling over an RGBA raster: a breadth-first traversal of the
//! 4-connected pixels whose color is similar to the seed's color.
pub mod color;
pub mod grid;
pub mod fill;
pub mod laws;
