//! Formal linear combinations of words, their shuffle products and their
//! reduction to the Lyndon basis, with the monomial algebras built on them.

pub mod base;
pub mod math;
pub mod math_format;
pub mod polylog;
pub mod math_format_macro;
