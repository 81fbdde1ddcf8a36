//! Arithmetic in finite fields: prime fields GF(p), extension fields GF(p^n)
//! represented by polynomial residues modulo a primitive polynomial, and
//! polynomials whose coefficients are such field elements.

pub mod arith;
pub mod element;
pub mod intpoly;
pub mod laws;
pub mod poly;

pub use arith::{change_base_from10_to_n, extended_euclidean};
pub use element::{Element, FiniteField, FieldError};
pub use poly::Polynomial;
