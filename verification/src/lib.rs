//! Exact, overflow-aware modular-arithmetic primitives: binary modular
//! exponentiation, an iterative Euclidean greatest common divisor over a
//! collection of values, and the extended Euclidean algorithm producing
//! Bezout coefficients.

pub mod arithmetic;
pub mod divisibility;
pub mod gcd;
