//! Polylogarithm functions built on the algebra.

pub mod grqli;
pub mod polylog_space;
pub mod qli;

pub use grqli::GrQLi;
pub use polylog_space::CB_naive_via_QLi_fours;
pub use qli::{PolylogError, QLi};
