//! Verified pixel-grid and layout logic behind the "words as rocks in a
//! stream" renderer: raster channel packing, Zhang-Suen thinning, the 8SSEDT
//! distance transform, the xorshift particle seeder, phrase selection, the
//! balanced two-line phrase split, and the ordered stroke-centreline trace of
//! a word.

pub mod pixels;
pub mod thinning;
pub mod distance;
pub mod grid;
pub mod sizing;
pub mod rng;
pub mod layout;
pub mod phrases;
pub mod stroke;
pub mod cycle;
