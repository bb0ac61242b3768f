//! Solving linear and quadratic equations in one variable, written as a
//! whitespace-separated sequence of terms such as `x² + 2x + 1 = 0`.
//!
//! The work runs in four stages, each a verified function: tokenizing the
//! text into particles ([`data_preprocessing`]), moving the right-hand side
//! across the equality marker ([`transposition`]), consolidating like terms
//! ([`organize_term`]) and extracting the roots ([`factorization`]);
//! [`solve_equation`] runs them in turn.

pub mod particle;
pub mod text;
pub mod tokenize;
pub mod transpose;
pub mod organize;
pub mod factor;
pub mod pipeline;

pub use particle::{EquationError, Particle, Unknown};
pub use tokenize::data_preprocessing;
pub use transpose::transposition;
pub use organize::organize_term;
pub use factor::factorization;
pub use pipeline::solve_equation;
