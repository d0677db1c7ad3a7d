//! Element types whose operators are exact, and what the determinant and the
//! cofactors are for them: those of the integers that the elements stand for.

use crate::algebra::{
    cofactor, cofactor_defined, determinant, determinant_defined, expansion,
    expansion_step_defined, lemma_minor, minor, sign, skip, square,
};
use crate::numeric::{lemma_integer_identities, Numeric};
use vstd::prelude::*;
use vstd::std_specs::ops::{AddSpec, DivSpec, MulSpec, SubSpec};

verus! {

/// `value` reads the elements of `T` as integers in such a way that `ZERO` is
/// 0, `ONE` is 1, and a sum, a difference or a product that is defined is the
/// sum, the difference or the product of the integers.
pub open spec fn exact<T: Numeric>(value: spec_fn(T) -> int) -> bool {
    &&& value(T::ZERO) == 0
    &&& value(T::ONE) == 1
    &&& forall|a: T, b: T|
        a.add_req(b) ==> value(#[trigger] a.add_spec(b)) == value(a) + value(b)
    &&& forall|a: T, b: T|
        a.sub_req(b) ==> value(#[trigger] a.sub_spec(b)) == value(a) - value(b)
    &&& forall|a: T, b: T|
        a.mul_req(b) ==> value(#[trigger] a.mul_spec(b)) == value(a) * value(b)
}

/// Under `value` a division that is defined and leaves no remainder is exact:
/// the quotient times the divisor is the dividend.
pub open spec fn exact_division<T: Numeric>(value: spec_fn(T) -> int) -> bool {
    forall|a: T, b: T|
        a.div_req(b) && value(b) != 0 && value(a) % value(b) == 0 ==> value(
            #[trigger] a.div_spec(b),
        ) * value(b) == value(a)
}

/// The matrix of the integers that `value` reads in the elements of `m`.
pub open spec fn values<T>(m: Seq<Seq<T>>, value: spec_fn(T) -> int) -> Seq<Seq<int>> {
    Seq::new(m.len(), |r: int| Seq::new(m[r].len(), |c: int| value(m[r][c])))
}

/// 1 for an even `k` and -1 for an odd one.
pub open spec fn alternating(k: int) -> int {
    if k % 2 == 0 {
        1
    } else {
        -1
    }
}

/// The determinant of a square matrix of integers: the single element at
/// order 1, and above that the alternating sum, over the columns, of the
/// elements of the first row times the determinants of their minors.
pub open spec fn int_determinant(m: Seq<Seq<int>>) -> int
    decreases m.len(), m.len() + 1,
{
    if m.len() <= 1 {
        m[0][0]
    } else {
        int_expansion(m, m.len())
    }
}

/// The first `terms` terms of that alternating sum.
pub open spec fn int_expansion(m: Seq<Seq<int>>, terms: nat) -> int
    decreases m.len(), terms,
{
    if terms == 0 || m.len() == 0 {
        0
    } else {
        int_expansion(m, (terms - 1) as nat) + alternating(terms - 1) * m[0][terms - 1]
            * int_determinant(minor(m, 0, terms - 1))
    }
}

/// Reading the elements as integers and taking a minor can be done in either
/// order.
pub proof fn lemma_values_of_minor<T>(
    m: Seq<Seq<T>>,
    value: spec_fn(T) -> int,
    row: int,
    col: int,
)
    requires
        square(m),
        0 <= row < m.len(),
        0 <= col < m.len(),
    ensures
        minor(values(m, value), row, col) == values(minor(m, row, col), value),
{
    let read = values(m, value);
    assert(square(read));
    lemma_minor(m, row, col);
    lemma_minor(read, row, col);
    let left = minor(read, row, col);
    let right = values(minor(m, row, col), value);
    assert forall|i: int| 0 <= i < m.len() - 1 implies left[i] == right[i] by {
        assert(left[i].len() == m.len() - 1);
        assert(minor(m, row, col)[i].len() == m.len() - 1);
        assert forall|j: int| 0 <= j < m.len() - 1 implies left[i][j] == right[i][j] by {
            assert(left[i][j] == read[skip(i, row)][skip(j, col)]);
            assert(minor(m, row, col)[i][j] == m[skip(i, row)][skip(j, col)]);
        }
        assert(left[i] =~= right[i]);
    }
    assert(left =~= right);
}

/// Where the operators of the element type are exact and every operation that
/// the determinant takes is defined, the determinant is the determinant of
/// the integers that the elements stand for.
pub proof fn lemma_determinant_exact<T: Numeric>(m: Seq<Seq<T>>, value: spec_fn(T) -> int)
    requires
        square(m),
        m.len() >= 1,
        exact(value),
        determinant_defined(m),
    ensures
        value(determinant(m)) == int_determinant(values(m, value)),
    decreases m.len(), m.len() + 1,
{
    let read = values(m, value);
    if m.len() == 2 {
        lemma_values_of_minor(m, value, 0, 0);
        lemma_values_of_minor(m, value, 0, 1);
        lemma_minor(m, 0, 0);
        lemma_minor(m, 0, 1);
        assert(minor(m, 0, 0)[0][0] == m[1][1]);
        assert(minor(m, 0, 1)[0][0] == m[1][0]);
        assert(int_determinant(minor(read, 0, 0)) == value(m[1][1]));
        assert(int_determinant(minor(read, 0, 1)) == value(m[1][0]));
        assert(int_expansion(read, 0) == 0);
        assert(int_expansion(read, 1) == 1 * read[0][0] * value(m[1][1]));
        assert(int_expansion(read, 2) == int_expansion(read, 1) + (-1) * read[0][1] * value(
            m[1][0],
        ));
        assert(read[0][0] == value(m[0][0]));
        assert(read[0][1] == value(m[0][1]));
        assert((-1) * value(m[0][1]) * value(m[1][0]) == -(value(m[0][1]) * value(m[1][0])))
            by (nonlinear_arith);
    } else if m.len() >= 3 {
        lemma_expansion_exact(m, value, m.len());
    }
}

/// The same for the first `terms` terms of the expansion along the first row.
pub proof fn lemma_expansion_exact<T: Numeric>(
    m: Seq<Seq<T>>,
    value: spec_fn(T) -> int,
    terms: nat,
)
    requires
        square(m),
        m.len() >= 3,
        exact(value),
        determinant_defined(m),
        terms <= m.len(),
    ensures
        value(expansion(m, terms)) == int_expansion(values(m, value), terms),
    decreases m.len(), terms,
{
    if terms > 0 {
        let read = values(m, value);
        let col = terms - 1;
        lemma_expansion_exact(m, value, col as nat);
        let element = m[0][col];
        assert(expansion_step_defined(m, col));
        lemma_minor(m, 0, col);
        lemma_determinant_exact(minor(m, 0, col), value);
        lemma_values_of_minor(m, value, 0, col);
        assert(value(sign::<T>(col)) == alternating(col));
        assert(read[0][col] == value(element));
    }
}

/// Under the same conditions a cofactor is the cofactor of the integers that
/// the elements stand for: the alternating sign of its place times the
/// determinant of the minor.
pub proof fn lemma_cofactor_exact<T: Numeric>(
    m: Seq<Seq<T>>,
    value: spec_fn(T) -> int,
    row: int,
    col: int,
)
    requires
        square(m),
        m.len() >= 2,
        0 <= row < m.len(),
        0 <= col < m.len(),
        exact(value),
        cofactor_defined(m, row, col),
    ensures
        value(cofactor(m, row, col)) == alternating(row + col) * int_determinant(
            minor(values(m, value), row, col),
        ),
{
    lemma_minor(m, row, col);
    lemma_determinant_exact(minor(m, row, col), value);
    lemma_values_of_minor(m, value, row, col);
    assert(value(sign::<T>(row + col)) == alternating(row + col));
}

/// The machine integers are exact: each stands for the number that it is.
pub proof fn lemma_machine_integers_exact()
    ensures
        exact(|x: i8| x as int),
        exact(|x: i16| x as int),
        exact(|x: i32| x as int),
        exact(|x: i64| x as int),
        exact(|x: i128| x as int),
        exact(|x: isize| x as int),
        exact(|x: u8| x as int),
        exact(|x: u16| x as int),
        exact(|x: u32| x as int),
        exact(|x: u64| x as int),
        exact(|x: u128| x as int),
        exact(|x: usize| x as int),
{
    lemma_integer_identities();
}

/// The quotient that rounds towards zero, of a dividend that the divisor
/// divides, is exact and no larger in size than the dividend.
proof fn lemma_truncated_quotient(a: int, b: int)
    requires
        b != 0,
        a % b == 0,
    ensures
        a >= 0 ==> (a / b) * b == a && -a <= a / b <= a,
        a < 0 ==> (-((-a) / b)) * b == a && a <= -((-a) / b) <= -a,
{
    if a >= 0 {
        vstd::arithmetic::div_mod::lemma_fundamental_div_mod(a, b);
        let q = a / b;
        assert(-a <= q <= a) by (nonlinear_arith)
            requires
                a == b * q,
                b != 0,
                a >= 0,
        ;
        assert(q * b == b * q) by (nonlinear_arith);
    } else {
        let n = -a;
        vstd::arithmetic::div_mod::lemma_fundamental_div_mod(a, b);
        vstd::arithmetic::div_mod::lemma_fundamental_div_mod(n, b);
        let whole = a / b;
        let q = n / b;
        let r = n % b;
        assert(0 <= r && (r < b || r < -b)) by (nonlinear_arith)
            requires
                r == n % b,
                b != 0,
        ;
        let t = q + whole;
        assert(b * t == -r) by (nonlinear_arith)
            requires
                a == b * whole,
                n == -a,
                n == b * q + r,
                t == q + whole,
        ;
        if t >= 1 {
            assert(b > 0 ==> b * t >= b) by (nonlinear_arith)
                requires
                    t >= 1,
            ;
            assert(b < 0 ==> b * t <= b) by (nonlinear_arith)
                requires
                    t >= 1,
            ;
            assert(false);
        }
        if t <= -1 {
            assert(b > 0 ==> b * t <= -b) by (nonlinear_arith)
                requires
                    t <= -1,
            ;
            assert(b < 0 ==> b * t >= -b) by (nonlinear_arith)
                requires
                    t <= -1,
            ;
            assert(false);
        }
        assert(b * 0 == 0);
        assert(r == 0 && q == -whole);
        assert(-n <= q <= n) by (nonlinear_arith)
            requires
                n == b * q,
                b != 0,
                n >= 0,
        ;
        assert((-q) * b == -(b * q)) by (nonlinear_arith);
    }
}

/// The machine integers divide exactly where the divisor divides the dividend.
pub proof fn lemma_machine_integers_divide_exactly()
    ensures
        exact_division(|x: i8| x as int),
        exact_division(|x: i16| x as int),
        exact_division(|x: i32| x as int),
        exact_division(|x: i64| x as int),
        exact_division(|x: i128| x as int),
        exact_division(|x: isize| x as int),
        exact_division(|x: u8| x as int),
        exact_division(|x: u16| x as int),
        exact_division(|x: u32| x as int),
        exact_division(|x: u64| x as int),
        exact_division(|x: u128| x as int),
        exact_division(|x: usize| x as int),
{
    assert forall|a: i8, b: i8|
        a.div_req(b) && b as int != 0 && (a as int) % (b as int) == 0 implies (
    #[trigger] a.div_spec(b)) as int * (b as int) == a as int by {
        lemma_truncated_quotient(a as int, b as int);
    }
    assert forall|a: i16, b: i16|
        a.div_req(b) && b as int != 0 && (a as int) % (b as int) == 0 implies (
    #[trigger] a.div_spec(b)) as int * (b as int) == a as int by {
        lemma_truncated_quotient(a as int, b as int);
    }
    assert forall|a: i32, b: i32|
        a.div_req(b) && b as int != 0 && (a as int) % (b as int) == 0 implies (
    #[trigger] a.div_spec(b)) as int * (b as int) == a as int by {
        lemma_truncated_quotient(a as int, b as int);
    }
    assert forall|a: i64, b: i64|
        a.div_req(b) && b as int != 0 && (a as int) % (b as int) == 0 implies (
    #[trigger] a.div_spec(b)) as int * (b as int) == a as int by {
        lemma_truncated_quotient(a as int, b as int);
    }
    assert forall|a: i128, b: i128|
        a.div_req(b) && b as int != 0 && (a as int) % (b as int) == 0 implies (
    #[trigger] a.div_spec(b)) as int * (b as int) == a as int by {
        lemma_truncated_quotient(a as int, b as int);
    }
    assert forall|a: isize, b: isize|
        a.div_req(b) && b as int != 0 && (a as int) % (b as int) == 0 implies (
    #[trigger] a.div_spec(b)) as int * (b as int) == a as int by {
        lemma_truncated_quotient(a as int, b as int);
    }
    assert forall|a: u8, b: u8|
        a.div_req(b) && b as int != 0 && (a as int) % (b as int) == 0 implies (
    #[trigger] a.div_spec(b)) as int * (b as int) == a as int by {
        lemma_truncated_quotient(a as int, b as int);
    }
    assert forall|a: u16, b: u16|
        a.div_req(b) && b as int != 0 && (a as int) % (b as int) == 0 implies (
    #[trigger] a.div_spec(b)) as int * (b as int) == a as int by {
        lemma_truncated_quotient(a as int, b as int);
    }
    assert forall|a: u32, b: u32|
        a.div_req(b) && b as int != 0 && (a as int) % (b as int) == 0 implies (
    #[trigger] a.div_spec(b)) as int * (b as int) == a as int by {
        lemma_truncated_quotient(a as int, b as int);
    }
    assert forall|a: u64, b: u64|
        a.div_req(b) && b as int != 0 && (a as int) % (b as int) == 0 implies (
    #[trigger] a.div_spec(b)) as int * (b as int) == a as int by {
        lemma_truncated_quotient(a as int, b as int);
    }
    assert forall|a: u128, b: u128|
        a.div_req(b) && b as int != 0 && (a as int) % (b as int) == 0 implies (
    #[trigger] a.div_spec(b)) as int * (b as int) == a as int by {
        lemma_truncated_quotient(a as int, b as int);
    }
    assert forall|a: usize, b: usize|
        a.div_req(b) && b as int != 0 && (a as int) % (b as int) == 0 implies (
    #[trigger] a.div_spec(b)) as int * (b as int) == a as int by {
        lemma_truncated_quotient(a as int, b as int);
    }
}

} // verus!
