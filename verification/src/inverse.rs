//! The inversion of a square matrix.

use crate::algebra::{inverse, inverse_defined, singular};
use crate::error::MatrixError;
use crate::matrix::{Matrix, NonZeroSquareMatrix};
use crate::numeric::Numeric;
use vstd::prelude::*;
use vstd::std_specs::ops::DivSpec;

verus! {

/// The inverse by the adjugate: the transposed matrix of cofactors, divided by
/// the determinant; at order 1 the reciprocal of the single element. Fails
/// where the determinant is equal to `ZERO`, and only there: a determinant
/// that is merely close to it is divided by.
pub fn invert<T: Numeric>(m: NonZeroSquareMatrix<T>) -> (r: Result<
    NonZeroSquareMatrix<T>,
    MatrixError,
>)
    requires
        inverse_defined(m@),
    ensures
        match r {
            Ok(inv) => {
                &&& !singular(m@)
                &&& inv.order() == m.order()
                &&& inv@ == inverse(m@)
            },
            Err(e) => singular(m@) && e == MatrixError::Singular,
        },
{
    proof {
        T::lemma_operators_obey();
    }
    let size = m.size();
    let det = m.det();
    if det == T::ZERO {
        return Err(MatrixError::Singular);
    }
    if size == 1 {
        let mut line: Vec<T> = Vec::new();
        line.push(T::ONE / det);
        let mut rows: Vec<Vec<T>> = Vec::new();
        rows.push(line);
        let flat = Matrix::try_from(rows).unwrap();
        let inv = NonZeroSquareMatrix::try_from(flat).unwrap();
        Ok(inv)
    } else {
        let adjugate = m.algebraic_additions().unwrap().transposed();
        Ok(adjugate / det)
    }
}

} // verus!
