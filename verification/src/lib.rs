//! Matrices of a generic element type, and the inverse of a square matrix by
//! the adjugate: the transposed matrix of cofactors, divided by the
//! determinant, which is expanded along the first row.
//!
//! [`matrix`] holds the two containers and their operations, [`inverse`] the
//! inversion, [`numeric`] what an element type has to supply. [`model`] and
//! [`algebra`] say in terms of sequences of rows what the operations return;
//! [`laws`] states what holds between them, and rests on [`exact`],
//! [`adjugate`] and [`sums`], the theory of the determinant over the integers.

pub mod adjugate;
pub mod algebra;
pub mod error;
pub mod exact;
pub mod inverse;
pub mod laws;
pub mod matrix;
pub mod model;
pub mod numeric;
pub mod sums;
