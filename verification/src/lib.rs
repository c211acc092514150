//! A glyph cache for text rendering: rasterized glyph bitmaps are packed
//! densely into a bounded set of fixed-size texture atlases by a
//! shelf-splitting free-rectangle allocator, with a two-generation liveness
//! tracker deciding which entries survive a full atlas rebuild.

pub mod bitmap;
pub mod dimen;
pub mod font_cache;
pub mod glyph;
pub mod quantize;
pub mod texture_packer;
