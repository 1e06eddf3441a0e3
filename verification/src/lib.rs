//! A compiler for declarative color-theme descriptions: exact fixed-point
//! conversion between the HSL and RGB color spaces, a small expression
//! language over a forward-only palette, and a highlight-directive
//! compiler that renders editor highlighting commands against the
//! resolved palette.
//!
//! Fractional quantities are held on a fixed micro grid: saturation,
//! lightness, deltas and mix weights in micro-units (1_000_000 is 1.0),
//! hues in micro-degrees (360_000_000 is a full turn).

pub mod color;
pub mod error;
pub mod format;
pub mod highlight;
pub mod palette;
pub mod text;
