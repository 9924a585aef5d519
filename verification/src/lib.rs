//! Linear factors of integer polynomials modulo a positive integer.
//!
//! A polynomial is a dense vector of arbitrary-precision coefficients,
//! lowest degree first. The engine evaluates a polynomial modulo `p`,
//! enumerates the roots in `[0, p)` by exhaustive search, and divides
//! the polynomial by a discovered linear factor `(x - r)` by synthetic
//! division, with every result normalized into `[0, p)` by floor modulo.

pub mod bigint;
pub mod model;
pub mod poly;
