//! Shamir's secret sharing over binary extension fields GF(2^n), with every
//! operation specified against a model of field elements as bit sequences.
//!
//! - `word`: machine words seen as bit sequences.
//! - `model`: the mathematical model: polynomials over GF(2) modulo
//!   x^n + x^a + x^b + x^c + 1, Lagrange interpolation.
//! - `gf2n`: field elements as word arrays, and their arithmetic.
//! - `reduction`: reduction of polynomials of any degree, which the
//!   word-level shifts and the fused-carry product rest on.
//! - `laws`: the algebraic laws of the field operations.
//! - `interpolation`: exactness of Lagrange interpolation in a field.
//! - `text`: decimal and hexadecimal text forms.
//! - `shamir`: splitting secrets into shares and reconstructing them.
//! - `outside`: contracts of the outside functions called.

pub mod gf2n;
pub mod interpolation;
pub mod laws;
pub mod model;
pub mod outside;
pub mod reduction;
pub mod shamir;
pub mod text;
pub mod word;
