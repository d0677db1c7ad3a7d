//! What the operations on square matrices return, over sequences of rows:
//! minors, the determinant, cofactors, the transpose, the inverse, and when
//! each of them is defined.

use crate::numeric::Numeric;
use vstd::prelude::*;
use vstd::std_specs::cmp::PartialEqSpec;
use vstd::std_specs::ops::{AddSpec, DivSpec, MulSpec, SubSpec};

verus! {

/// Every row is as long as the matrix has rows.
pub open spec fn square<T>(m: Seq<Seq<T>>) -> bool {
    forall|r: int| 0 <= r < m.len() ==> (#[trigger] m[r]).len() == m.len()
}

/// The matrix without row `row` and column `col`; the rows and columns that
/// stay keep their order.
pub open spec fn minor<T>(m: Seq<Seq<T>>, row: int, col: int) -> Seq<Seq<T>> {
    m.remove(row).map_values(|line: Seq<T>| line.remove(col))
}

/// The index in a sequence of what stands at `i` once the element at
/// `removed` is taken out.
pub open spec fn skip(i: int, removed: int) -> int {
    if i < removed {
        i
    } else {
        i + 1
    }
}

/// The index that `i` has in a sequence once the element at `removed`, which
/// is another one, is taken out.
pub open spec fn kept(i: int, removed: int) -> int {
    if i <= removed {
        i
    } else {
        i - 1
    }
}

/// The minor of a square matrix is square, one smaller, and holds at row `i`
/// and column `j` the element that stood there before the row and the column
/// were taken out.
pub proof fn lemma_minor<T>(m: Seq<Seq<T>>, row: int, col: int)
    requires
        square(m),
        0 <= row < m.len(),
        0 <= col < m.len(),
    ensures
        minor(m, row, col).len() == m.len() - 1,
        square(minor(m, row, col)),
        forall|i: int, j: int|
            0 <= i < m.len() - 1 && 0 <= j < m.len() - 1 ==> #[trigger] minor(m, row, col)[i][j]
                == m[skip(i, row)][skip(j, col)],
{
    let inner = minor(m, row, col);
    assert forall|i: int| 0 <= i < m.len() - 1 implies (#[trigger] inner[i]).len() == m.len() - 1 by {
        assert(m.remove(row)[i] == m[skip(i, row)]);
    }
    assert forall|i: int, j: int| 0 <= i < m.len() - 1 && 0 <= j < m.len() - 1 implies #[trigger] inner[i][j]
        == m[skip(i, row)][skip(j, col)] by {
        assert(m.remove(row)[i] == m[skip(i, row)]);
    }
}

/// The alternating sign: `ONE` for an even `k`, `ZERO - ONE` for an odd one.
pub open spec fn sign<T: Numeric>(k: int) -> T {
    if k % 2 == 0 {
        T::ONE
    } else {
        T::ZERO.sub_spec(T::ONE)
    }
}

/// The subtraction that `sign(k)` takes is defined.
pub open spec fn sign_defined<T: Numeric>(k: int) -> bool {
    k % 2 == 0 || T::ZERO.sub_req(T::ONE)
}

/// The determinant of a square matrix: its single element at order 1, the
/// difference of the two diagonal products at order 2, and above that the
/// expansion along the first row.
pub open spec fn determinant<T: Numeric>(m: Seq<Seq<T>>) -> T
    decreases m.len(), m.len() + 1,
{
    if m.len() <= 1 {
        m[0][0]
    } else if m.len() == 2 {
        m[0][0].mul_spec(m[1][1]).sub_spec(m[0][1].mul_spec(m[1][0]))
    } else {
        expansion(m, m.len())
    }
}

/// The first `terms` terms of the expansion along the first row, added to
/// `ZERO` one after the other in the order of their columns.
pub open spec fn expansion<T: Numeric>(m: Seq<Seq<T>>, terms: nat) -> T
    decreases m.len(), terms,
{
    if terms == 0 {
        T::ZERO
    } else {
        expansion(m, (terms - 1) as nat).add_spec(expansion_term(m, terms - 1))
    }
}

/// The term of column `col` in the expansion along the first row: the sign of
/// the column, times the element, times the determinant of its minor.
pub open spec fn expansion_term<T: Numeric>(m: Seq<Seq<T>>, col: int) -> T
    decreases m.len(), 0nat,
{
    if m.len() == 0 {
        T::ZERO
    } else {
        sign::<T>(col).mul_spec(m[0][col]).mul_spec(determinant(minor(m, 0, col)))
    }
}

/// Every operation that computing `determinant(m)` takes is defined.
pub open spec fn determinant_defined<T: Numeric>(m: Seq<Seq<T>>) -> bool
    decreases m.len(), m.len() + 1,
{
    if m.len() <= 1 {
        true
    } else if m.len() == 2 {
        &&& m[0][0].mul_req(m[1][1])
        &&& m[0][1].mul_req(m[1][0])
        &&& m[0][0].mul_spec(m[1][1]).sub_req(m[0][1].mul_spec(m[1][0]))
    } else {
        forall|col: int|
            #![trigger m[0][col]]
            0 <= col < m.len() ==> expansion_step_defined(m, col)
    }
}

/// Every operation that adding the term of column `col` to the expansion
/// takes is defined.
pub open spec fn expansion_step_defined<T: Numeric>(m: Seq<Seq<T>>, col: int) -> bool
    decreases m.len(), 0nat,
{
    if m.len() == 0 {
        true
    } else {
        &&& sign_defined::<T>(col)
        &&& sign::<T>(col).mul_req(m[0][col])
        &&& determinant_defined(minor(m, 0, col))
        &&& sign::<T>(col).mul_spec(m[0][col]).mul_req(determinant(minor(m, 0, col)))
        &&& expansion(m, col as nat).add_req(expansion_term(m, col))
    }
}

/// The cofactor of row `row` and column `col`: the sign of `row + col` times
/// the determinant of the minor.
pub open spec fn cofactor<T: Numeric>(m: Seq<Seq<T>>, row: int, col: int) -> T {
    sign::<T>(row + col).mul_spec(determinant(minor(m, row, col)))
}

/// Every operation that computing `cofactor(m, row, col)` takes is defined.
pub open spec fn cofactor_defined<T: Numeric>(m: Seq<Seq<T>>, row: int, col: int) -> bool {
    &&& sign_defined::<T>(row + col)
    &&& determinant_defined(minor(m, row, col))
    &&& sign::<T>(row + col).mul_req(determinant(minor(m, row, col)))
}

/// The matrix of the cofactors of a square matrix.
pub open spec fn cofactors<T: Numeric>(m: Seq<Seq<T>>) -> Seq<Seq<T>> {
    Seq::new(m.len(), |r: int| Seq::new(m.len(), |c: int| cofactor(m, r, c)))
}

/// Every cofactor of the square matrix can be computed.
pub open spec fn cofactors_defined<T: Numeric>(m: Seq<Seq<T>>) -> bool {
    forall|r: int, c: int|
        0 <= r < m.len() && 0 <= c < m.len() ==> #[trigger] cofactor_defined(m, r, c)
}

/// The square matrix mirrored at its diagonal.
pub open spec fn transpose<T>(m: Seq<Seq<T>>) -> Seq<Seq<T>> {
    Seq::new(m.len(), |r: int| Seq::new(m.len(), |c: int| m[c][r]))
}

/// The matrix with every element divided by `divisor`.
pub open spec fn quotient<T: Numeric>(m: Seq<Seq<T>>, divisor: T) -> Seq<Seq<T>> {
    Seq::new(m.len(), |r: int| Seq::new(m[r].len(), |c: int| m[r][c].div_spec(divisor)))
}

/// Every element of the matrix can be divided by `divisor`.
pub open spec fn quotient_defined<T: Numeric>(m: Seq<Seq<T>>, divisor: T) -> bool {
    forall|r: int, c: int|
        0 <= r < m.len() && 0 <= c < m[r].len() ==> (#[trigger] m[r][c]).div_req(divisor)
}

/// The determinant is equal to `ZERO`, as the element type compares.
pub open spec fn singular<T: Numeric>(m: Seq<Seq<T>>) -> bool {
    determinant(m).eq_spec(&T::ZERO)
}

/// The inverse by the adjugate: at order 1 the reciprocal of the element,
/// above that the transposed matrix of cofactors divided by the determinant.
pub open spec fn inverse<T: Numeric>(m: Seq<Seq<T>>) -> Seq<Seq<T>> {
    if m.len() == 1 {
        seq![seq![T::ONE.div_spec(m[0][0])]]
    } else {
        quotient(transpose(cofactors(m)), determinant(m))
    }
}

/// Every operation that inverting `m` takes is defined: the determinant, and,
/// unless the matrix is singular, the cofactors and the divisions.
pub open spec fn inverse_defined<T: Numeric>(m: Seq<Seq<T>>) -> bool {
    if m.len() == 1 {
        !singular(m) ==> T::ONE.div_req(m[0][0])
    } else {
        &&& determinant_defined(m)
        &&& !singular(m) ==> {
            &&& cofactors_defined(m)
            &&& quotient_defined(transpose(cofactors(m)), determinant(m))
        }
    }
}

} // verus!
