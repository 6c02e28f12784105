//! Exact arithmetic over the integers modulo a fixed modulus, and Gaussian
//! elimination over such elements: reduction of an augmented coefficient
//! matrix to reduced row-echelon form, a solvability test, and extraction of
//! a solution vector.

pub mod decimal;
pub mod finite_field;
pub mod linalg;
pub mod rref;
