//! Binary floating-point numbers as bit patterns, with their arithmetic.
//!
//! Coordinates, sizes and zoom factors come from the window system and the page renderer as
//! IEEE 754 numbers. They are kept here by their bits, so that what is computed from them can
//! be stated over integers. Every operation gives the exact result rounded to the nearest
//! number of the format, of two the one with the even mantissa.

pub mod arithmetic;
pub mod bounds;
pub mod double;
pub mod exact;
pub mod ordering;
pub mod real32;
pub mod real64;
pub mod root;
pub mod rounding;
pub mod single;

pub use crate::float::real32::Real32;
pub use crate::float::real64::Real64;
