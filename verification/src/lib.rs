//! Turns a raster image into a single `<div>` whose style paints every pixel
//! row as a CSS linear gradient.

mod cli;
mod color_utils;
mod css_assembler;
mod gradient_builder;
mod number_text;

pub use cli::{default_output_name, parse_args, parse_unsigned_bytes, CliArgs};
pub use color_utils::{rgb_to_compressed_color, rgba_to_pixels, Rgb};
pub use css_assembler::{assemble_css, dominant_from_counts, find_dominant_color, render_css};
pub use gradient_builder::{
    build_row_gradient, build_row_gradient_tolerancezero, build_row_runs, find_optimal_stops,
    runs_to_hard_gradient, stops_to_smooth_gradient, ColorRun, Gradient, GradientLinearData, Part,
};
pub use number_text::{decimal_digits, format_with_thousands};

use vstd::prelude::*;

verus! {

/// The pixels of an image, row after row, `width` pixels per row.
pub struct ImageData {
    pub width: u32,
    pub height: u32,
    pub pixels: Vec<Rgb>,
}

/// How an image file is turned into CSS: an optional width to scale down
/// to, and how far (per channel) a smooth gradient may stray from a pixel.
pub struct ConvertImageOptions {
    pub width: Option<u32>,
    pub tolerance: u8,
}

} // verus!
