//! Discovery of numbered file sequences ("streaks") and the compact
//! pattern notation that describes their frame numbers.

pub mod error;
pub mod text;
pub mod padding;
pub mod frames;
pub mod range;
pub mod pattern;
pub mod streak;
pub mod scan;
