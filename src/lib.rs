//! The discrete core of a recursive ray tracer.
//!
//! Shading itself is floating-point work and happens in the caller; what is
//! decided here is stated and proved: which intersection a ray sees, the
//! order in which a ray crosses surfaces, which media a refracted ray passes
//! between, whether a point lies in shadow, how deep secondary rays may go,
//! how canvas pixels are stored and how the finished image is written out.

pub mod canvas;
pub mod fuzzy_eq;
pub mod intersection;
pub mod matrix;
pub mod pattern;
pub mod ppm;
pub mod transport;
pub mod writer;

pub use canvas::Canvas;
pub use fuzzy_eq::FuzzyEq;
pub use intersection::{hit, is_shadowed, refraction_media, sorted_order};
pub use matrix::Matrix;
pub use writer::MaxWidthWriter;
pub use transport::{secondary_depth, REFLECTION_DEPTH};
