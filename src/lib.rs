//! Integer core of a recursive ray tracer: the framebuffer, its plain-text
//! pixel format, the averaging of anti-aliasing samples and the bookkeeping
//! of the worker pool that fills the framebuffer.
mod canvas;
mod decimal;
mod pool;
mod ppm;
mod sampling;

pub use canvas::{
    image_pixels, image_size, lemma_cell_in_grid, lemma_cell_of_index, rgb_seq, Canvas, Color, Image,
};
pub use decimal::{decimal, digits_value, parse_decimal, push_decimal};
pub use pool::PoolLedger;
pub use ppm::{
    is_ppm_of, lemma_ppm_round_trip, parse_pixel, parse_ppm_header, pixel_line, pixel_lines,
    ppm_header, ppm_text,
};
pub use sampling::SampleSum;
