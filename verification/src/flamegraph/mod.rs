//! Flame graph construction from folded stack lines.
pub mod attrs;
pub mod classic;
pub mod color;
pub mod merge;
pub mod palettes;
pub mod render;

pub use merge::Sample;
