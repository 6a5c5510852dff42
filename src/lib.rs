//! Adds an outline of a chosen colour around the foreground of an RGBA raster.
//!
//! Foreground is every pixel that is not background, where background is either
//! a transparent pixel or a pixel of a given key colour. A pass recolours every
//! foreground pixel that has a background neighbour among its eight; passes can
//! be repeated to thicken the outline, the canvas can be padded first, and the
//! outline can be widened by one pixel in every direction.

pub mod raster;
pub mod classify;
pub mod outline;
pub mod laws;

pub use classify::{Background, EdgePolicy, is_background};
pub use outline::{OutlineOptions, outline_rgba8, outline_rgba8_single, touches_edge};
pub use raster::{PixelBuffer, Rgba, add_pixel_padding};
