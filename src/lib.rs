// The integer core of a software renderer: colors, a depth-tested
// framebuffer, fixed-point triangle rasterization, and the per-frame draw
// decisions.
pub mod color;
pub mod raster;
pub mod framebuffer;
pub mod pipeline;
