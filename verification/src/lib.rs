//! A bucketed, append-only vector of items with per-item matcher columns,
//! together with the character and pattern handling used to match against them.

pub mod location;
pub mod utf32;
pub mod boxcar;
pub mod canonicalize;
pub mod pattern;

pub use boxcar::{Item, Vec};
pub use utf32::Utf32String;
