//! Conversion between the additive RGB colour model and the subtractive
//! red-yellow-blue (RYB) model, on components of several storage types.
//!
//! All arithmetic is IEEE 754 binary64 arithmetic carried out on bit patterns
//! with integer operations: every operation is the exact result rounded to
//! the nearest value, ties to the even mantissa, and every step of a
//! conversion has a contract over exact quantities.
//!
//! - [`quantity`]: exact quantities and their counts of binary units;
//! - [`rounding`]: formats, values and rounding;
//! - [`arith`]: the operations of a format;
//! - [`binary64`], [`binary32`]: data as bit patterns;
//! - [`component`]: the storage types of colour components;
//! - [`color`]: the colours, their conversion and mixing;
//! - [`grid`]: colours on a binary grid, which convert exactly;
//! - [`roundtrip`]: how components come back after normalization.
pub mod quantity;
pub mod rounding;
pub mod arith;
pub mod binary32;
pub mod binary64;
pub mod component;
pub mod color;
pub mod grid;
pub mod roundtrip;

pub use binary32::Binary32;
pub use binary64::Binary64;
pub use color::{mix, Rgb, Ryb};
pub use component::Component;
