//! Frame buffers for chained LED pixel-matrix panels: pixel surfaces,
//! software rasterization into them, and the double-buffered swap protocol
//! that presents a finished frame at the display's vertical refresh.

pub mod color;
pub mod canvas;
pub mod raster;
pub mod matrix;
pub mod text;
