//! The determinant over the integers: additive in each row, zero where two rows
//! are equal, expandable along any row; and the law of the adjugate.

use crate::algebra::{kept, lemma_minor, minor, skip, square};
use crate::exact::{alternating, int_determinant, int_expansion};
use crate::sums::{
    lemma_sum_add, lemma_sum_equal, lemma_sum_scale, lemma_sum_skip, lemma_sum_swap,
    lemma_sum_zero, sum,
};
use vstd::prelude::*;

verus! {

/// The term of column `col` in the expansion of the determinant along the
/// first row.
pub open spec fn first_row_term(m: Seq<Seq<int>>, col: int) -> int {
    alternating(col) * m[0][col] * int_determinant(minor(m, 0, col))
}

/// The terms of the expansion along the first row, by column.
pub open spec fn first_row_terms(m: Seq<Seq<int>>) -> spec_fn(int) -> int {
    |col: int| first_row_term(m, col)
}

/// The cofactor of row `row` and column `col` of a matrix of integers.
pub open spec fn int_cofactor(m: Seq<Seq<int>>, row: int, col: int) -> int {
    alternating(row + col) * int_determinant(minor(m, row, col))
}

/// The products of the elements of row `row` with the cofactors of row
/// `other`, by column.
pub open spec fn row_by_cofactors(m: Seq<Seq<int>>, row: int, other: int) -> spec_fn(int) -> int {
    |col: int| m[row][col] * int_cofactor(m, other, col)
}

/// The row whose elements are the sums of the elements of `a` and `b`.
pub open spec fn add_rows(a: Seq<int>, b: Seq<int>) -> Seq<int> {
    Seq::new(a.len(), |c: int| a[c] + b[c])
}

/// The matrix with the rows `i` and `j` exchanged.
pub open spec fn swap_rows(m: Seq<Seq<int>>, i: int, j: int) -> Seq<Seq<int>> {
    m.update(i, m[j]).update(j, m[i])
}

/// The partial sums of the expansion along the first row are sums of its terms.
pub proof fn lemma_expansion_is_sum(m: Seq<Seq<int>>, terms: nat)
    requires
        m.len() > 0,
    ensures
        int_expansion(m, terms) == sum(first_row_terms(m), terms),
    decreases terms,
{
    if terms > 0 {
        lemma_expansion_is_sum(m, (terms - 1) as nat);
    }
}

/// Above order 1 the determinant is the sum of the terms of the first row.
pub proof fn lemma_determinant_is_sum(m: Seq<Seq<int>>)
    requires
        m.len() >= 2,
    ensures
        int_determinant(m) == sum(first_row_terms(m), m.len()),
{
    lemma_expansion_is_sum(m, m.len());
}

/// A row of a minor is the row of the matrix that it comes from, without the
/// element of the column that was taken out.
pub proof fn lemma_minor_row<T>(m: Seq<Seq<T>>, row: int, col: int, i: int)
    requires
        0 <= row < m.len(),
        0 <= i < m.len() - 1,
    ensures
        minor(m, row, col).len() == m.len() - 1,
        minor(m, row, col)[i] == m[skip(i, row)].remove(col),
{
    assert(m.remove(row)[i] == m[skip(i, row)]);
}

/// The minor that takes out a row does not depend on that row.
pub proof fn lemma_minor_without_row<T>(m: Seq<Seq<T>>, row: int, line: Seq<T>, col: int)
    requires
        0 <= row < m.len(),
    ensures
        minor(m.update(row, line), row, col) == minor(m, row, col),
{
    assert(m.update(row, line).remove(row) =~= m.remove(row));
}

/// Replacing a row below the first one and then taking a minor along the
/// first row is taking the minor and replacing the row in it.
pub proof fn lemma_minor_with_row<T>(m: Seq<Seq<T>>, row: int, line: Seq<T>, col: int)
    requires
        1 <= row < m.len(),
    ensures
        minor(m.update(row, line), 0, col) == minor(m, 0, col).update(row - 1, line.remove(col)),
{
    let changed = m.update(row, line);
    let left = minor(changed, 0, col);
    let right = minor(m, 0, col).update(row - 1, line.remove(col));
    assert forall|i: int| 0 <= i < m.len() - 1 implies left[i] == right[i] by {
        lemma_minor_row(changed, 0, col, i);
        lemma_minor_row(m, 0, col, i);
    }
    lemma_minor_row(changed, 0, col, 0);
    lemma_minor_row(m, 0, col, 0);
    assert(left =~= right);
}

/// The determinant is additive in each row: where a row is the sum of two
/// rows, the determinant is the sum of the determinants with either row in
/// its place.
pub proof fn lemma_additive(m: Seq<Seq<int>>, row: int, a: Seq<int>, b: Seq<int>)
    requires
        square(m),
        0 <= row < m.len(),
        a.len() == m.len(),
        b.len() == m.len(),
    ensures
        int_determinant(m.update(row, add_rows(a, b))) == int_determinant(m.update(row, a))
            + int_determinant(m.update(row, b)),
    decreases m.len(),
{
    let n = m.len();
    let both = m.update(row, add_rows(a, b));
    let left = m.update(row, a);
    let right = m.update(row, b);
    if n >= 2 {
        lemma_determinant_is_sum(both);
        lemma_determinant_is_sum(left);
        lemma_determinant_is_sum(right);
        assert forall|c: int| 0 <= c < n implies #[trigger] first_row_terms(both)(c)
            == first_row_terms(left)(c) + first_row_terms(right)(c) by {
            if row == 0 {
                lemma_minor_without_row(m, 0, add_rows(a, b), c);
                lemma_minor_without_row(m, 0, a, c);
                lemma_minor_without_row(m, 0, b, c);
                let d = int_determinant(minor(m, 0, c));
                assert(alternating(c) * (a[c] + b[c]) * d == alternating(c) * a[c] * d
                    + alternating(c) * b[c] * d) by (nonlinear_arith);
            } else {
                let inner = minor(m, 0, c);
                lemma_minor(m, 0, c);
                lemma_minor_with_row(m, row, add_rows(a, b), c);
                lemma_minor_with_row(m, row, a, c);
                lemma_minor_with_row(m, row, b, c);
                assert(add_rows(a, b).remove(c) =~= add_rows(a.remove(c), b.remove(c)));
                lemma_additive(inner, row - 1, a.remove(c), b.remove(c));
                let da = int_determinant(inner.update(row - 1, a.remove(c)));
                let db = int_determinant(inner.update(row - 1, b.remove(c)));
                let k = alternating(c) * m[0][c];
                assert(k * (da + db) == k * da + k * db) by (nonlinear_arith);
            }
        }
        lemma_sum_add(first_row_terms(left), first_row_terms(right), n);
        lemma_sum_equal(
            first_row_terms(both),
            |c: int| first_row_terms(left)(c) + first_row_terms(right)(c),
            n,
        );
    }
}

/// The term of the columns `c` and `d` when the determinant is expanded along
/// the first row and each minor along its own first row: zero where the
/// columns are the same.
pub open spec fn pair_term(m: Seq<Seq<int>>, c: int, d: int) -> int {
    if c == d {
        0
    } else {
        (alternating(c) * m[0][c]) * (alternating(kept(d, c)) * m[1][d] * int_determinant(
            minor(minor(m, 0, c), 0, kept(d, c)),
        ))
    }
}

/// The terms of the pairs of columns whose first column is `c`.
pub open spec fn pair_row(m: Seq<Seq<int>>, c: int) -> spec_fn(int) -> int {
    |d: int| pair_term(m, c, d)
}

/// The terms of the pairs of columns whose second column is `d`.
pub open spec fn pair_col(m: Seq<Seq<int>>, d: int) -> spec_fn(int) -> int {
    |c: int| pair_term(m, c, d)
}

/// For each first column the sum of the terms of its pairs.
pub open spec fn pair_row_sums(m: Seq<Seq<int>>) -> spec_fn(int) -> int {
    |c: int| sum(pair_row(m, c), m.len())
}

/// For each second column the sum of the terms of its pairs.
pub open spec fn pair_col_sums(m: Seq<Seq<int>>) -> spec_fn(int) -> int {
    |d: int| sum(pair_col(m, d), m.len())
}

/// Taking out two columns with the first two rows gives one matrix, whichever
/// column goes first.
pub proof fn lemma_minors_commute(m: Seq<Seq<int>>, c: int, d: int)
    requires
        square(m),
        m.len() >= 3,
        0 <= c < m.len(),
        0 <= d < m.len(),
        c != d,
    ensures
        minor(minor(m, 0, c), 0, kept(d, c)) == minor(minor(m, 0, d), 0, kept(c, d)),
{
    let n = m.len();
    lemma_minor(m, 0, c);
    lemma_minor(m, 0, d);
    lemma_minor(minor(m, 0, c), 0, kept(d, c));
    lemma_minor(minor(m, 0, d), 0, kept(c, d));
    let left = minor(minor(m, 0, c), 0, kept(d, c));
    let right = minor(minor(m, 0, d), 0, kept(c, d));
    assert forall|i: int| 0 <= i < n - 2 implies left[i] == right[i] by {
        assert forall|j: int| 0 <= j < n - 2 implies left[i][j] == right[i][j] by {
            let jc = skip(j, kept(d, c));
            let jd = skip(j, kept(c, d));
            assert(left[i][j] == minor(m, 0, c)[skip(i, 0)][jc]);
            assert(right[i][j] == minor(m, 0, d)[skip(i, 0)][jd]);
            assert(minor(m, 0, c)[i + 1][jc] == m[skip(i + 1, 0)][skip(jc, c)]);
            assert(minor(m, 0, d)[i + 1][jd] == m[skip(i + 1, 0)][skip(jd, d)]);
        }
        assert(left[i] =~= right[i]);
    }
    assert(left =~= right);
}

/// A term of the expansion along the first row is the sum of the terms of
/// the pairs that begin with its column.
pub proof fn lemma_pair_expansion(m: Seq<Seq<int>>, c: int)
    requires
        square(m),
        m.len() >= 3,
        0 <= c < m.len(),
    ensures
        first_row_term(m, c) == sum(pair_row(m, c), m.len()),
{
    let n = m.len();
    let inner = minor(m, 0, c);
    lemma_minor(m, 0, c);
    lemma_determinant_is_sum(inner);
    let h = |d: int|
        alternating(kept(d, c)) * m[1][d] * int_determinant(minor(inner, 0, kept(d, c)));
    let short = |e: int| h(skip(e, c));
    let long = |d: int|
        if d == c {
            0
        } else {
            h(d)
        };
    assert forall|e: int| 0 <= e < n - 1 implies #[trigger] first_row_terms(inner)(e) == short(
        e,
    ) by {
        assert(kept(skip(e, c), c) == e);
        assert(inner[0][e] == m[skip(0, 0)][skip(e, c)]);
    }
    lemma_sum_equal(first_row_terms(inner), short, (n - 1) as nat);
    lemma_sum_skip(h, c, n);
    lemma_sum_equal(
        short,
        |d: int| h(skip(d, c)),
        (n - 1) as nat,
    );
    lemma_sum_equal(
        long,
        |d: int|
            if d == c {
                0
            } else {
                h(d)
            },
        n,
    );
    assert(int_determinant(inner) == sum(long, n));
    let k = alternating(c) * m[0][c];
    lemma_sum_scale(long, k, n);
    assert forall|d: int| 0 <= d < n implies #[trigger] pair_row(m, c)(d) == k * long(d) by {
        if d == c {
            assert(k * 0 == 0);
        }
    }
    lemma_sum_equal(pair_row(m, c), |d: int| k * long(d), n);
}

/// Where the first two rows are equal, exchanging the columns of a pair
/// changes the sign of its term.
pub proof fn lemma_pair_antisymmetric(m: Seq<Seq<int>>, c: int, d: int)
    requires
        square(m),
        m.len() >= 3,
        m[0] == m[1],
        0 <= c < m.len(),
        0 <= d < m.len(),
    ensures
        pair_term(m, c, d) == -pair_term(m, d, c),
{
    if c != d {
        lemma_minors_commute(m, c, d);
        let s1 = alternating(c);
        let s2 = alternating(kept(d, c));
        let t1 = alternating(d);
        let t2 = alternating(kept(c, d));
        let x = m[0][c];
        let y = m[0][d];
        let det = int_determinant(minor(minor(m, 0, c), 0, kept(d, c)));
        assert(s1 * s2 == -(t1 * t2)) by {
            if c < d {
                assert(kept(d, c) == d - 1);
                assert(kept(c, d) == c);
            } else {
                assert(kept(d, c) == d);
                assert(kept(c, d) == c - 1);
            }
        }
        assert(pair_term(m, c, d) == (s1 * x) * (s2 * y * det));
        assert(pair_term(m, d, c) == (t1 * y) * (t2 * x * det));
        assert((s1 * x) * (s2 * y * det) == (s1 * s2) * (x * y * det)) by (nonlinear_arith);
        assert((t1 * y) * (t2 * x * det) == (t1 * t2) * (x * y * det)) by (nonlinear_arith);
        assert((s1 * s2) * (x * y * det) == -((t1 * t2) * (x * y * det))) by (nonlinear_arith)
            requires
                s1 * s2 == -(t1 * t2),
        ;
    }
}

/// Where the first two rows are equal, the determinant is zero.
proof fn lemma_equal_first_rows(m: Seq<Seq<int>>)
    requires
        square(m),
        m.len() >= 3,
        m[0] == m[1],
    ensures
        int_determinant(m) == 0,
{
    let n = m.len();
    let g = |c: int, d: int| pair_term(m, c, d);
    let rows = pair_row_sums(m);
    let cols = pair_col_sums(m);
    lemma_determinant_is_sum(m);
    assert forall|c: int| 0 <= c < n implies #[trigger] first_row_terms(m)(c) == rows(c) by {
        lemma_pair_expansion(m, c);
    }
    lemma_sum_equal(first_row_terms(m), rows, n);
    lemma_sum_swap(g, n, n);
    assert forall|c: int| 0 <= c < n implies #[trigger] rows(c) == sum(|d: int| g(c, d), n) by {
        lemma_sum_equal(pair_row(m, c), |d: int| g(c, d), n);
    }
    lemma_sum_equal(rows, |c: int| sum(|d: int| g(c, d), n), n);
    assert forall|d: int| 0 <= d < n implies #[trigger] cols(d) == sum(|c: int| g(c, d), n) by {
        lemma_sum_equal(pair_col(m, d), |c: int| g(c, d), n);
    }
    lemma_sum_equal(cols, |d: int| sum(|c: int| g(c, d), n), n);
    assert(sum(rows, n) == sum(cols, n));
    assert forall|d: int| 0 <= d < n implies #[trigger] cols(d) == (-1) * rows(d) by {
        assert forall|c: int| 0 <= c < n implies #[trigger] pair_col(m, d)(c) == (-1) * pair_row(
            m,
            d,
        )(c) by {
            lemma_pair_antisymmetric(m, c, d);
        }
        lemma_sum_equal(pair_col(m, d), |c: int| (-1) * pair_row(m, d)(c), n);
        lemma_sum_scale(pair_row(m, d), -1, n);
    }
    lemma_sum_equal(cols, |d: int| (-1) * rows(d), n);
    lemma_sum_scale(rows, -1, n);
}

/// Where two rows that follow each other are equal, the determinant is zero.
pub proof fn lemma_equal_neighbours(m: Seq<Seq<int>>, row: int)
    requires
        square(m),
        0 <= row,
        row + 1 < m.len(),
        m[row] == m[row + 1],
    ensures
        int_determinant(m) == 0,
    decreases m.len(),
{
    let n = m.len();
    if n == 2 {
        lemma_determinant_is_sum(m);
        lemma_minor(m, 0, 0);
        lemma_minor(m, 0, 1);
        assert(minor(m, 0, 0)[0][0] == m[skip(0, 0)][skip(0, 0)]);
        assert(minor(m, 0, 1)[0][0] == m[skip(0, 0)][skip(0, 1)]);
        assert(sum(first_row_terms(m), 0) == 0);
        assert(sum(first_row_terms(m), 1) == first_row_term(m, 0));
        assert(sum(first_row_terms(m), 2) == first_row_term(m, 0) + first_row_term(m, 1));
        let x = m[0][0];
        let y = m[0][1];
        assert(m[1][0] == x && m[1][1] == y);
        assert(1 * x * y + (-1) * y * x == 0) by (nonlinear_arith);
    } else if row == 0 {
        lemma_equal_first_rows(m);
    } else {
        lemma_determinant_is_sum(m);
        assert forall|c: int| 0 <= c < n implies #[trigger] first_row_terms(m)(c) == 0 by {
            let inner = minor(m, 0, c);
            lemma_minor(m, 0, c);
            lemma_minor_row(m, 0, c, row - 1);
            lemma_minor_row(m, 0, c, row);
            lemma_equal_neighbours(inner, row - 1);
            assert(alternating(c) * m[0][c] * 0 == 0);
        }
        lemma_sum_zero(first_row_terms(m), n);
    }
}

/// Exchanging two rows that follow each other changes the sign of the
/// determinant.
pub proof fn lemma_swap_neighbours(m: Seq<Seq<int>>, row: int)
    requires
        square(m),
        0 <= row,
        row + 1 < m.len(),
    ensures
        int_determinant(swap_rows(m, row, row + 1)) == -int_determinant(m),
{
    let a = m[row];
    let b = m[row + 1];
    let s = add_rows(a, b);
    let next = row + 1;
    // both rows hold the sum
    let ss = m.update(row, s).update(next, s);
    lemma_equal_neighbours(ss, row);
    // split the upper row
    let base = m.update(next, s);
    assert(ss =~= base.update(row, s));
    lemma_additive(base, row, a, b);
    let upper_a = m.update(row, a);
    let upper_b = m.update(row, b);
    assert(base.update(row, a) =~= upper_a.update(next, s));
    assert(base.update(row, b) =~= upper_b.update(next, s));
    // split the lower row of either part
    lemma_additive(upper_a, next, a, b);
    lemma_additive(upper_b, next, a, b);
    lemma_equal_neighbours(upper_a.update(next, a), row);
    lemma_equal_neighbours(upper_b.update(next, b), row);
    assert(upper_a.update(next, b) =~= m);
    assert(upper_b.update(next, a) =~= swap_rows(m, row, next));
}

/// The minor that takes out the upper of two exchanged rows is the minor of
/// the matrix before the exchange that takes out the lower one.
pub proof fn lemma_minor_of_swapped<T>(m: Seq<Seq<T>>, row: int, col: int)
    requires
        1 <= row < m.len(),
    ensures
        minor(m.update(row - 1, m[row]).update(row, m[row - 1]), row - 1, col) == minor(
            m,
            row,
            col,
        ),
{
    let swapped = m.update(row - 1, m[row]).update(row, m[row - 1]);
    assert(swapped.remove(row - 1) =~= m.remove(row));
}

/// The determinant can be expanded along any row: it is the sum of the
/// products of the elements of the row with their cofactors.
pub proof fn lemma_row_expansion(m: Seq<Seq<int>>, row: int)
    requires
        square(m),
        m.len() >= 2,
        0 <= row < m.len(),
    ensures
        int_determinant(m) == sum(row_by_cofactors(m, row, row), m.len()),
    decreases row,
{
    let n = m.len();
    let here = row_by_cofactors(m, row, row);
    if row == 0 {
        lemma_determinant_is_sum(m);
        assert forall|c: int| 0 <= c < n implies #[trigger] first_row_terms(m)(c) == here(c) by {
            let d = int_determinant(minor(m, 0, c));
            assert(alternating(c) * m[0][c] * d == m[0][c] * (alternating(0 + c) * d))
                by (nonlinear_arith);
        }
        lemma_sum_equal(first_row_terms(m), here, n);
    } else {
        let swapped = swap_rows(m, row - 1, row);
        let there = row_by_cofactors(swapped, row - 1, row - 1);
        lemma_swap_neighbours(m, row - 1);
        lemma_row_expansion(swapped, row - 1);
        assert forall|c: int| 0 <= c < n implies #[trigger] there(c) == (-1) * here(c) by {
            lemma_minor_of_swapped(m, row, c);
            let d = int_determinant(minor(m, row, c));
            assert(swapped[row - 1][c] == m[row][c]);
            assert(alternating(row - 1 + c) == -alternating(row + c));
            assert(m[row][c] * ((-alternating(row + c)) * d) == (-1) * (m[row][c] * (alternating(
                row + c,
            ) * d))) by (nonlinear_arith);
        }
        lemma_sum_equal(there, |c: int| (-1) * here(c), n);
        lemma_sum_scale(here, -1, n);
    }
}

/// Where two rows are equal, the determinant is zero.
pub proof fn lemma_equal_rows(m: Seq<Seq<int>>, upper: int, lower: int)
    requires
        square(m),
        0 <= upper < lower < m.len(),
        m[upper] == m[lower],
    ensures
        int_determinant(m) == 0,
    decreases lower - upper,
{
    if lower == upper + 1 {
        lemma_equal_neighbours(m, upper);
    } else {
        let swapped = swap_rows(m, lower - 1, lower);
        lemma_swap_neighbours(m, lower - 1);
        lemma_equal_rows(swapped, upper, lower - 1);
    }
}

/// The adjugate law: the products of the elements of one row with the
/// cofactors of a row add up to the determinant where the two rows are the
/// same row, and to zero where they are not. So the matrix times its
/// transposed matrix of cofactors is the determinant times the identity.
pub proof fn lemma_adjugate(m: Seq<Seq<int>>, row: int, other: int)
    requires
        square(m),
        m.len() >= 2,
        0 <= row < m.len(),
        0 <= other < m.len(),
    ensures
        sum(row_by_cofactors(m, row, other), m.len()) == (if row == other {
            int_determinant(m)
        } else {
            0
        }),
{
    let n = m.len();
    if row == other {
        lemma_row_expansion(m, row);
    } else {
        let twin = m.update(other, m[row]);
        lemma_row_expansion(twin, other);
        if row < other {
            lemma_equal_rows(twin, row, other);
        } else {
            lemma_equal_rows(twin, other, row);
        }
        assert forall|c: int| 0 <= c < n implies #[trigger] row_by_cofactors(twin, other, other)(
            c,
        ) == row_by_cofactors(m, row, other)(c) by {
            lemma_minor_without_row(m, other, m[row], c);
        }
        lemma_sum_equal(
            row_by_cofactors(twin, other, other),
            row_by_cofactors(m, row, other),
            n,
        );
    }
}

} // verus!
