//! What holds between the operations of the library.

use crate::adjugate::{lemma_adjugate, row_by_cofactors};
use crate::algebra::{
    cofactor_defined, cofactors, cofactors_defined, determinant, determinant_defined,
    expansion_step_defined, inverse, inverse_defined, lemma_minor, minor, quotient_defined,
    singular, square, transpose,
};
use crate::exact::{
    exact, exact_division, lemma_cofactor_exact, lemma_determinant_exact, values,
};
use crate::model::{cloned_rows, lemma_unflatten_flatten, rectangular, unflatten, width};
use crate::numeric::Numeric;
use crate::sums::{lemma_sum_equal, lemma_sum_scale, sum};
use vstd::prelude::*;
use vstd::std_specs::ops::{AddSpec, DivSpec, MulSpec, SubSpec};

verus! {

/// Round trip: rows of equal length that are flattened into a matrix and read
/// back from it, row by row, are the rows that went in. `back` stands for any
/// rows that the reading, which clones each element, may give; where `clone`
/// returns what it was given, they are equal to `rows`.
pub proof fn lemma_round_trip<T: Clone>(rows: Seq<Seq<T>>, back: Seq<Seq<T>>)
    requires
        rectangular(rows),
        cloned_rows(unflatten(rows.flatten(), rows.len(), width(rows)), back),
    ensures
        cloned_rows(rows, back),
        (forall|a: T, b: T| #[trigger] cloned(a, b) ==> a == b) ==> back == rows,
{
    lemma_unflatten_flatten(rows, width(rows));
    if forall|a: T, b: T| #[trigger] cloned(a, b) ==> a == b {
        assert forall|r: int| 0 <= r < rows.len() implies back[r] == rows[r] by {
            assert forall|c: int| 0 <= c < rows[r].len() implies back[r][c] == rows[r][c] by {
                assert(cloned(rows[r][c], back[r][c]));
            }
            assert(back[r] =~= rows[r]);
        }
        assert(back =~= rows);
    }
}

/// Transposing a square matrix twice gives the matrix.
pub proof fn lemma_transpose_involution<T>(m: Seq<Seq<T>>)
    requires
        square(m),
    ensures
        transpose(transpose(m)) == m,
{
    let twice = transpose(transpose(m));
    assert forall|r: int| 0 <= r < m.len() implies twice[r] == m[r] by {
        assert forall|c: int| 0 <= c < m.len() implies twice[r][c] == m[r][c] by {
            assert(transpose(m)[c][r] == m[r][c]);
        }
        assert(twice[r] =~= m[r]);
    }
    assert(twice =~= m);
}

/// The determinant of the matrix of the rows `a b` and `c d` is `a * d - b * c`.
pub proof fn lemma_determinant_order_two<T: Numeric>(a: T, b: T, c: T, d: T)
    ensures
        determinant(seq![seq![a, b], seq![c, d]]) == a.mul_spec(d).sub_spec(b.mul_spec(c)),
{
    let m = seq![seq![a, b], seq![c, d]];
    assert(m.len() == 2);
    assert(m[0][0] == a && m[0][1] == b && m[1][0] == c && m[1][1] == d);
}

/// The four operators of the element type are defined on all values, as
/// those of a floating point type are.
pub open spec fn total<T: Numeric>() -> bool {
    &&& forall|a: T, b: T| #[trigger] a.add_req(b)
    &&& forall|a: T, b: T| #[trigger] a.sub_req(b)
    &&& forall|a: T, b: T| #[trigger] a.mul_req(b)
    &&& forall|a: T, b: T| #[trigger] a.div_req(b)
}

/// Where the operators are defined on all values, the determinant of every
/// square matrix can be computed.
pub proof fn lemma_total_determinant<T: Numeric>(m: Seq<Seq<T>>)
    requires
        total::<T>(),
        square(m),
    ensures
        determinant_defined(m),
    decreases m.len(),
{
    if m.len() >= 3 {
        assert forall|col: int|
            #![trigger m[0][col]]
            0 <= col < m.len() implies expansion_step_defined(m, col) by {
            lemma_minor(m, 0, col);
            lemma_total_determinant(minor(m, 0, col));
        }
    }
}

/// Where the operators are defined on all values, every square matrix with at
/// least one row can be inverted or found singular.
pub proof fn lemma_total_inverse<T: Numeric>(m: Seq<Seq<T>>)
    requires
        total::<T>(),
        square(m),
        m.len() >= 1,
    ensures
        determinant_defined(m),
        m.len() >= 2 ==> cofactors_defined(m),
        inverse_defined(m),
{
    lemma_total_determinant(m);
    if m.len() >= 2 {
        assert forall|r: int, c: int| 0 <= r < m.len() && 0 <= c < m.len() implies cofactor_defined(
            m,
            r,
            c,
        ) by {
            lemma_minor(m, r, c);
            lemma_total_determinant(minor(m, r, c));
        }
        assert(quotient_defined(transpose(cofactors(m)), determinant(m)));
    }
}

/// The element of row `row` and column `col` of the product of a matrix with
/// its adjugate, the transposed matrix of cofactors, read as integers.
pub open spec fn times_adjugate<T: Numeric>(
    m: Seq<Seq<T>>,
    value: spec_fn(T) -> int,
    row: int,
    col: int,
) -> int {
    sum(|k: int| value(m[row][k]) * value(transpose(cofactors(m))[k][col]), m.len())
}

/// A matrix times its adjugate is the determinant times the identity: where
/// the operators of the element type are exact and every operation that the
/// determinant and the cofactors take is defined, the product holds the
/// determinant on the diagonal and zero elsewhere. The inverse is the adjugate
/// divided by the determinant, so the matrix times its inverse is the identity
/// as far as that division is exact.
pub proof fn lemma_matrix_times_adjugate<T: Numeric>(
    m: Seq<Seq<T>>,
    value: spec_fn(T) -> int,
    row: int,
    col: int,
)
    requires
        square(m),
        m.len() >= 2,
        0 <= row < m.len(),
        0 <= col < m.len(),
        exact(value),
        determinant_defined(m),
        cofactors_defined(m),
    ensures
        times_adjugate(m, value, row, col) == (if row == col {
            value(determinant(m))
        } else {
            0
        }),
{
    let n = m.len();
    let read = values(m, value);
    assert(square(read));
    lemma_determinant_exact(m, value);
    lemma_adjugate(read, row, col);
    let product = |k: int| value(m[row][k]) * value(transpose(cofactors(m))[k][col]);
    assert forall|k: int| 0 <= k < n implies #[trigger] product(k) == row_by_cofactors(
        read,
        row,
        col,
    )(k) by {
        assert(cofactor_defined(m, col, k));
        lemma_cofactor_exact(m, value, col, k);
        assert(read[row][k] == value(m[row][k]));
        assert(transpose(cofactors(m))[k][col] == cofactors(m)[col][k]);
    }
    lemma_sum_equal(product, row_by_cofactors(read, row, col), n);
    lemma_sum_equal(
        product,
        |k: int| value(m[row][k]) * value(transpose(cofactors(m))[k][col]),
        n,
    );
}

/// The element of row `row` and column `col` of the product of a matrix with
/// its inverse, read as integers.
pub open spec fn times_inverse<T: Numeric>(
    m: Seq<Seq<T>>,
    value: spec_fn(T) -> int,
    row: int,
    col: int,
) -> int {
    sum(|k: int| value(m[row][k]) * value(inverse(m)[k][col]), m.len())
}

/// The inverse exists over the integers: at order 1 the element divides 1,
/// above that the determinant divides every element of the adjugate.
pub open spec fn inverse_is_integral<T: Numeric>(
    m: Seq<Seq<T>>,
    value: spec_fn(T) -> int,
) -> bool {
    if m.len() == 1 {
        1int % value(m[0][0]) == 0
    } else {
        forall|r: int, c: int|
            0 <= r < m.len() && 0 <= c < m.len() ==> value(
                #[trigger] transpose(cofactors(m))[r][c],
            ) % value(determinant(m)) == 0
    }
}

/// A matrix times its inverse is the identity: where the operators of the
/// element type are exact, every operation that the inversion takes is
/// defined, the determinant is not zero and the inverse exists over the
/// integers, the product holds 1 on the diagonal and 0 elsewhere.
pub proof fn lemma_matrix_times_inverse<T: Numeric>(
    m: Seq<Seq<T>>,
    value: spec_fn(T) -> int,
    row: int,
    col: int,
)
    requires
        square(m),
        m.len() >= 1,
        0 <= row < m.len(),
        0 <= col < m.len(),
        exact(value),
        exact_division(value),
        inverse_defined(m),
        !singular(m),
        value(determinant(m)) != 0,
        inverse_is_integral(m, value),
    ensures
        times_inverse(m, value, row, col) == (if row == col {
            1int
        } else {
            0int
        }),
{
    let n = m.len();
    let det = determinant(m);
    let d = value(det);
    let with_inverse = |k: int| value(m[row][k]) * value(inverse(m)[k][col]);
    if n == 1 {
        let only = T::ONE.div_spec(m[0][0]);
        assert(inverse(m)[0][0] == only);
        assert(value(only) * d == 1);
        assert(sum(with_inverse, 0) == 0);
        assert(sum(with_inverse, 1) == with_inverse(0));
        assert(d * value(only) == value(only) * d) by (nonlinear_arith);
    } else {
        let adjugate = transpose(cofactors(m));
        let with_adjugate = |k: int| value(m[row][k]) * value(transpose(cofactors(m))[k][col]);
        lemma_matrix_times_adjugate(m, value, row, col);
        assert forall|k: int| 0 <= k < n implies #[trigger] with_adjugate(k) == d * with_inverse(
            k,
        ) by {
            let whole = adjugate[k][col];
            assert(whole.div_req(det));
            assert(value(whole) % d == 0);
            assert(inverse(m)[k][col] == whole.div_spec(det));
            let part = value(whole.div_spec(det));
            let x = value(m[row][k]);
            assert(part * d == value(whole));
            assert(x * (part * d) == d * (x * part)) by (nonlinear_arith);
        }
        lemma_sum_equal(with_adjugate, |k: int| d * with_inverse(k), n);
        lemma_sum_scale(with_inverse, d, n);
        let total = sum(with_inverse, n);
        let goal = if row == col {
            1int
        } else {
            0int
        };
        assert(d * total == d * goal) by {
            if row == col {
                assert(d * 1 == d);
            } else {
                assert(d * 0 == 0);
            }
        }
        assert(total == goal) by (nonlinear_arith)
            requires
                d * total == d * goal,
                d != 0,
        ;
    }
}

} // verus!
