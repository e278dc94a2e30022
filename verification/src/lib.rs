//! Elliptic-curve group arithmetic over a prime field.
//!
//! A [`Group`] holds the parameters `(a, b, p)` of a short-Weierstrass curve
//! `y^2 = x^3 + a*x + b (mod p)`; a [`Point`] is either an affine point or
//! the point at infinity, tied to its owning group. Field elements and
//! scalars are arbitrary-precision naturals ([`Num`]). The group law, scalar
//! multiplication and the uncompressed point encoding are verified against
//! the mathematical model in [`model`], and the algebraic laws of the group
//! are proved in [`laws`].

pub mod codec;
pub mod curve;
pub mod field;
pub mod laws;
pub mod model;
pub mod num;

pub use curve::{CurveError, Group, Point};
pub use num::Num;
