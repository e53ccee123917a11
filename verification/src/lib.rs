//! Placeholder images rendered locally: a solid or patterned background with
//! the image's size (or a custom label) drawn in the centre with an 8x8 bitmap
//! font.

pub mod canvas;
pub mod color;
pub mod draw;
pub mod error;
pub mod glyph;
pub mod label;
pub mod laws;
pub mod naming;
pub mod render;
pub mod shape;
pub mod size;
pub mod text;

pub use canvas::Canvas;
pub use color::{Rgba, alt_color, parse_color};
pub use draw::{can_draw_label, draw_label, draw_shadowed_label, label_extent};
pub use error::{Error, ErrorKind};
pub use label::split_label;
pub use naming::{default_filename, ext_for_output, output_extension};
pub use render::{apply_border, apply_radius, render, render_checker, render_diag};
pub use shape::is_inside_rounded;
pub use size::{MAX_DIM, MAX_PIXELS, Size, parse_size};
